use crate::error::LookupError;
use semver::Version;
use vstd::prelude::*;

verus! {

/// A parsed Semantic Version, opaque here.
#[verifier::external_type_specification]
#[verifier::external_body]
pub struct ExVersion(Version);

/// `semver::Version::parse` accepts `text`: it follows the Semantic Versioning grammar,
/// `major.minor.patch` with optional pre-release and build metadata.
pub uninterp spec fn semver_parses(text: Seq<char>) -> bool;

/// Under the order of `semver::Version`, the version parsed from `a` comes strictly
/// before the version parsed from `b`.
pub uninterp spec fn semver_precedes(a: Seq<char>, b: Seq<char>) -> bool;

/// A release tag's version text, with the version that semver parsed from it. Only
/// `parse_version` builds one, so `version` is always what `Version::parse` gave for
/// `text`.
pub struct ParsedVersion {
    text: String,
    version: Version,
}

impl View for ParsedVersion {
    type V = Seq<char>;

    /// The text that the version was parsed from.
    closed spec fn view(&self) -> Seq<char> {
        self.text@
    }
}

/// Relies on `semver::Version::parse`, which succeeds exactly on the texts that follow
/// the Semantic Versioning grammar.
#[verifier::external_body]
fn parse_version(text: &str) -> (r: Option<ParsedVersion>)
    ensures
        r is Some <==> semver_parses(text@),
        r matches Some(v) ==> v@ == text@,
{
    match Version::parse(text) {
        Ok(version) => Some(ParsedVersion { text: text.to_string(), version }),
        Err(_) => None,
    }
}

/// Relies on the `<` of `semver::Version`, the order it derives: major, minor and patch
/// as numbers, then the pre-release (a release ranks above its pre-releases), then the
/// build metadata.
#[verifier::external_body]
fn precedes(a: &ParsedVersion, b: &ParsedVersion) -> (r: bool)
    ensures
        r == semver_precedes(a@, b@),
{
    a.version < b.version
}

impl ParsedVersion {
    /// The text that the version was parsed from.
    pub fn as_str(&self) -> (r: &str)
        ensures
            r@ == self@,
    {
        self.text.as_str()
    }

    /// The parsed version.
    pub fn version(&self) -> &Version {
        &self.version
    }

    /// The parsed version, taken out.
    pub fn into_version(self) -> Version {
        self.version
    }
}

/// A tag with one leading `v` taken off.
pub open spec fn strip_v(tag: Seq<char>) -> Seq<char> {
    if tag.len() > 0 && tag[0] == 'v' {
        tag.drop_first()
    } else {
        tag
    }
}

/// The text of the latest version among `tags`: each tag loses one leading `v`, tags
/// that do not parse are passed over, and among the others the greatest wins, the
/// later one where two are equal. `None` where no tag parses.
pub open spec fn latest_of(tags: Seq<Seq<char>>) -> Option<Seq<char>>
    decreases tags.len(),
{
    if tags.len() == 0 {
        None
    } else {
        let best = latest_of(tags.drop_last());
        let t = strip_v(tags.last());
        if !semver_parses(t) {
            best
        } else {
            match best {
                Some(b) => if semver_precedes(t, b) {
                    Some(b)
                } else {
                    Some(t)
                },
                None => Some(t),
            }
        }
    }
}

/// The views of a sequence of strings.
pub open spec fn texts_of(tags: Seq<String>) -> Seq<Seq<char>> {
    tags.map_values(|s: String| s@)
}

proof fn lemma_latest_of(tags: Seq<Seq<char>>)
    ensures
        latest_of(tags) is None <==> forall|i: int|
            0 <= i < tags.len() ==> !semver_parses(#[trigger] strip_v(tags[i])),
        latest_of(tags) matches Some(t) ==> exists|i: int|
            0 <= i < tags.len() && strip_v(tags[i]) == t && semver_parses(#[trigger] strip_v(
                tags[i],
            )),
    decreases tags.len(),
{
    if tags.len() > 0 {
        let init = tags.drop_last();
        lemma_latest_of(init);
        assert forall|i: int| 0 <= i < init.len() implies init[i] == tags[i] by {}
        if latest_of(tags) is None {
            assert forall|i: int| 0 <= i < tags.len() implies !semver_parses(
                #[trigger] strip_v(tags[i]),
            ) by {
                if i < init.len() {
                    assert(strip_v(init[i]) == strip_v(tags[i]));
                }
            }
        }
        match latest_of(tags) {
            Some(t) => {
                if latest_of(tags) != latest_of(init) {
                    assert(strip_v(tags[tags.len() - 1]) == t);
                } else {
                    let i = choose|i: int|
                        0 <= i < init.len() && strip_v(init[i]) == t && semver_parses(
                            #[trigger] strip_v(init[i]),
                        );
                    assert(strip_v(tags[i]) == t);
                }
            },
            None => {},
        }
    }
}

/// A tag whose text, one leading `v` taken off, parses as a version.
pub open spec fn tag_parses(tag: Seq<char>) -> bool {
    semver_parses(strip_v(tag))
}

/// `tag_parses` as a predicate on tags.
pub open spec fn tag_parses_pred() -> spec_fn(Seq<char>) -> bool {
    |t: Seq<char>| tag_parses(t)
}

/// The tags that parse, in order.
pub open spec fn parsing_tags(tags: Seq<Seq<char>>) -> Seq<Seq<char>> {
    tags.filter(tag_parses_pred())
}

/// Tags that do not parse play no part: the latest version of a sequence of tags is
/// that of its parsing tags alone.
pub proof fn lemma_latest_ignores_unparsed(tags: Seq<Seq<char>>)
    ensures
        latest_of(tags) == latest_of(parsing_tags(tags)),
    decreases tags.len(),
{
    if tags.len() > 0 {
        let init = tags.drop_last();
        lemma_latest_ignores_unparsed(init);
        let f = parsing_tags(tags);
        reveal(Seq::filter);
        assert(tag_parses_pred()(tags.last()) == tag_parses(tags.last()));
        if tag_parses(tags.last()) {
            assert(f == parsing_tags(init).push(tags.last()));
            assert(f.drop_last() =~= parsing_tags(init));
        } else {
            assert(f == parsing_tags(init));
        }
    }
}

/// Inserting, anywhere among the tags, tags that do not parse leaves the latest
/// version unchanged: two sequences with the same parsing tags in the same order
/// resolve alike.
pub proof fn lemma_latest_same_parsing_tags(tags: Seq<Seq<char>>, more: Seq<Seq<char>>)
    requires
        parsing_tags(more) == parsing_tags(tags),
    ensures
        latest_of(more) == latest_of(tags),
{
    lemma_latest_ignores_unparsed(tags);
    lemma_latest_ignores_unparsed(more);
}

/// Where the order of versions is a strict weak order (irreflexive, asymmetric,
/// and negatively transitive), the version that `latest_of` selects parses and is
/// exceeded by no parsing tag: it is a maximum.
pub proof fn lemma_latest_is_maximum(tags: Seq<Seq<char>>)
    requires
        forall|a: Seq<char>| !#[trigger] semver_precedes(a, a),
        forall|a: Seq<char>, b: Seq<char>| #[trigger]
            semver_precedes(a, b) ==> !semver_precedes(b, a),
        forall|a: Seq<char>, b: Seq<char>, c: Seq<char>|
            !#[trigger] semver_precedes(a, b) && !#[trigger] semver_precedes(b, c)
                ==> !semver_precedes(a, c),
    ensures
        latest_of(tags) matches Some(t) ==> semver_parses(t) && forall|i: int|
            0 <= i < tags.len() && tag_parses(tags[i]) ==> !semver_precedes(
                t,
                #[trigger] strip_v(tags[i]),
            ),
    decreases tags.len(),
{
    if tags.len() > 0 {
        let init = tags.drop_last();
        let last = strip_v(tags.last());
        lemma_latest_is_maximum(init);
        lemma_latest_of(init);
        assert forall|i: int| 0 <= i < init.len() implies init[i] == tags[i] by {}
        match latest_of(tags) {
            Some(t) => {
                assert forall|i: int|
                    0 <= i < tags.len() && tag_parses(tags[i]) implies !semver_precedes(
                    t,
                    #[trigger] strip_v(tags[i]),
                ) by {
                    if i == tags.len() - 1 {
                        match latest_of(init) {
                            Some(b) => {
                                if semver_precedes(last, b) {
                                    assert(t == b);
                                } else {
                                    assert(t == last);
                                }
                            },
                            None => {},
                        }
                    } else {
                        assert(tag_parses(init[i]));
                        let x = strip_v(init[i]);
                        match latest_of(init) {
                            Some(b) => {
                                assert(!semver_precedes(b, x));
                                if t != b {
                                    assert(t == last);
                                    assert(!semver_precedes(last, b));
                                    assert(!semver_precedes(t, x));
                                }
                            },
                            None => {
                                assert(!semver_parses(strip_v(init[i])));
                            },
                        }
                    }
                }
            },
            None => {},
        }
    }
}

/// A tag with one leading `v` taken off.
fn strip_leading_v(tag: &str) -> (r: &str)
    ensures
        r@ == strip_v(tag@),
{
    let n = tag.unicode_len();
    if n > 0 && tag.get_char(0) == 'v' {
        tag.substring_char(1, n)
    } else {
        tag
    }
}

/// Selects the latest Semantic Version among release tags. A leading `v` is taken off
/// each tag; tags that do not parse are passed over. Fails with `NoReleases` exactly
/// where no tag parses, among them where there is no tag at all.
pub fn latest_version(tags: &Vec<String>) -> (r: Result<ParsedVersion, LookupError>)
    ensures
        match latest_of(texts_of(tags@)) {
            Some(t) => r matches Ok(v) && v@ == t,
            None => r == Err::<ParsedVersion, LookupError>(LookupError::NoReleases),
        },
        r is Err <==> forall|i: int|
            0 <= i < tags@.len() ==> !semver_parses(#[trigger] strip_v(tags@[i]@)),
        r matches Ok(v) ==> exists|i: int|
            0 <= i < tags@.len() && strip_v(tags@[i]@) == v@ && semver_parses(
                #[trigger] strip_v(tags@[i]@),
            ),
{
    let ghost texts = texts_of(tags@);
    let mut best: Option<ParsedVersion> = None;
    let mut k: usize = 0;
    while k < tags.len()
        invariant
            k <= tags@.len(),
            texts == texts_of(tags@),
            match latest_of(texts.take(k as int)) {
                Some(t) => best matches Some(b) && b@ == t,
                None => best is None,
            },
        decreases tags.len() - k,
    {
        assert(texts.take(k + 1).drop_last() =~= texts.take(k as int));
        assert(texts.take(k + 1).last() == tags@[k as int]@);
        let tag = strip_leading_v(tags[k].as_str());
        match parse_version(tag) {
            Some(v) => {
                let keep = match &best {
                    Some(b) => precedes(&v, b),
                    None => false,
                };
                if !keep {
                    best = Some(v);
                }
            },
            None => {},
        }
        k = k + 1;
    }
    assert(texts.take(k as int) =~= texts);
    proof {
        lemma_latest_of(texts);
        assert forall|i: int| 0 <= i < tags@.len() implies #[trigger] strip_v(tags@[i]@) == strip_v(
            texts[i],
        ) by {}
    }
    match best {
        Some(v) => Ok(v),
        None => Err(LookupError::NoReleases),
    }
}

} // verus!
