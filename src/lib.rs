use vstd::prelude::*;
use vstd::string::{StrSliceExecFns, StringExecFns};

pub mod error;
pub mod ordering;
pub mod text;
pub mod validations;

use crate::error::DebianVersionError;
use crate::ordering::{compare_segments, ordering_of, version_cmp};
use crate::text::{all_digits, chars_of, decimal, digits_value, parse_number, push_decimal};
use crate::validations::{check_revision, check_upstream, revision_check, upstream_check};

verus! {

/// A version of the form `[epoch:]upstream_version[-debian_revision]`.
#[derive(Clone, Debug)]
pub struct DebianVersion {
    /// The epoch, where the text has one; ordered as 0 where absent.
    pub epoch: Option<usize>,
    /// The upstream version: starts with a digit.
    pub upstream_version: String,
    /// The revision after the last `-`, where the text has one.
    pub debian_revision: Option<String>,
}

/// The mathematical value of a [`DebianVersion`].
pub struct VersionView {
    /// The epoch, if present.
    pub epoch: Option<usize>,
    /// The characters of the upstream version.
    pub upstream: Seq<char>,
    /// The characters of the revision, if present.
    pub revision: Option<Seq<char>>,
}

/// The view of an optional string.
pub open spec fn opt_view(s: Option<String>) -> Option<Seq<char>> {
    match s {
        Some(t) => Some(t@),
        None => None,
    }
}

impl View for DebianVersion {
    type V = VersionView;

    open spec fn view(&self) -> VersionView {
        VersionView {
            epoch: self.epoch,
            upstream: self.upstream_version@,
            revision: opt_view(self.debian_revision),
        }
    }
}

/// The value of a parse result.
pub open spec fn result_view(r: Result<DebianVersion, DebianVersionError>) -> Result<
    VersionView,
    DebianVersionError,
> {
    match r {
        Ok(v) => Ok(v@),
        Err(e) => Err(e),
    }
}

/// `k` is the position of the first `c` in `s`.
pub open spec fn is_first(s: Seq<char>, c: char, k: int) -> bool {
    &&& 0 <= k < s.len()
    &&& s[k] == c
    &&& forall|i: int| 0 <= i < k ==> s[i] != c
}

/// `k` is the position of the last `c` in `s`.
pub open spec fn is_last(s: Seq<char>, c: char, k: int) -> bool {
    &&& 0 <= k < s.len()
    &&& s[k] == c
    &&& forall|i: int| k < i < s.len() ==> s[i] != c
}

/// `c` occurs in `s`.
pub open spec fn contains_char(s: Seq<char>, c: char) -> bool {
    exists|i: int| 0 <= i < s.len() && s[i] == c
}

/// The position of the first `c` in `s`, where there is one.
pub open spec fn first_index(s: Seq<char>, c: char) -> int {
    choose|k: int| is_first(s, c, k)
}

/// The position of the last `c` in `s`, where there is one.
pub open spec fn last_index(s: Seq<char>, c: char) -> int {
    choose|k: int| is_last(s, c, k)
}

/// A position with the property of a first occurrence is the first occurrence.
pub proof fn lemma_first_index(s: Seq<char>, c: char, k: int)
    requires
        is_first(s, c, k),
    ensures
        contains_char(s, c),
        first_index(s, c) == k,
{
    assert(exists|j: int| is_first(s, c, j));
    let j = first_index(s, c);
    if j < k {
        assert(s[j] != c);
    }
    if k < j {
        assert(s[k] != c);
    }
}

/// A position with the property of a last occurrence is the last occurrence.
pub proof fn lemma_last_index(s: Seq<char>, c: char, k: int)
    requires
        is_last(s, c, k),
    ensures
        contains_char(s, c),
        last_index(s, c) == k,
{
    assert(exists|j: int| is_last(s, c, j));
    let j = last_index(s, c);
    if j < k {
        assert(s[k] != c);
    }
    if k < j {
        assert(s[j] != c);
    }
}

/// The verdict on an epoch candidate: one or more digits whose value fits a `usize`.
pub open spec fn epoch_check(s: Seq<char>) -> Result<usize, DebianVersionError> {
    if s.len() > 0 && all_digits(s) && digits_value(s) <= usize::MAX {
        Ok(digits_value(s) as usize)
    } else {
        Err(DebianVersionError::InvalidEpoch)
    }
}

/// Parsing what follows the epoch separator (or the whole input, without epoch):
/// the last `-` splits off the revision.
pub open spec fn parse_rest(epoch: Option<usize>, rest: Seq<char>) -> Result<
    VersionView,
    DebianVersionError,
> {
    if rest.len() == 0 {
        Err(DebianVersionError::Empty)
    } else if contains_char(rest, '-') {
        let j = last_index(rest, '-');
        let up = rest.take(j);
        let rev = rest.skip(j + 1);
        match upstream_check(up, true) {
            Err(e) => Err(e),
            Ok(_) => match revision_check(rev) {
                Err(e) => Err(e),
                Ok(_) => Ok(VersionView { epoch, upstream: up, revision: Some(rev) }),
            },
        }
    } else {
        match upstream_check(rest, false) {
            Err(e) => Err(e),
            Ok(_) => Ok(VersionView { epoch, upstream: rest, revision: None }),
        }
    }
}

/// What parsing the characters `s` gives.
pub open spec fn parse_spec(s: Seq<char>) -> Result<VersionView, DebianVersionError> {
    if s.len() == 0 {
        Err(DebianVersionError::Empty)
    } else if contains_char(s, ':') {
        let k = first_index(s, ':');
        match epoch_check(s.take(k)) {
            Err(e) => Err(e),
            Ok(n) => parse_rest(Some(n), s.skip(k + 1)),
        }
    } else {
        parse_rest(None, s)
    }
}

/// The position of the first `c` in `v`, or the length of `v` if there is none.
fn find_first(v: &Vec<char>, c: char) -> (k: usize)
    ensures
        k <= v.len(),
        k < v.len() ==> is_first(v@, c, k as int),
        k == v.len() ==> !contains_char(v@, c),
{
    let mut k: usize = 0;
    while k < v.len() && v[k] != c
        invariant
            k <= v.len(),
            forall|i: int| 0 <= i < k ==> v@[i] != c,
        decreases v.len() - k,
    {
        k += 1;
    }
    k
}

impl DebianVersion {
    /// Parses `raw` as `[epoch:]upstream_version[-debian_revision]`: the first `:`
    /// ends the epoch, the last `-` starts the revision.
    pub fn parse(raw: &str) -> (r: Result<DebianVersion, DebianVersionError>)
        ensures
            result_view(r) == parse_spec(raw@),
            r matches Ok(v) ==> v.wf(),
    {
        proof {
            lemma_parse_wf(raw@);
        }
        let v = chars_of(raw);
        if v.len() == 0 {
            return Err(DebianVersionError::Empty);
        }
        let k: usize = find_first(&v, ':');
        let mut epoch: Option<usize> = None;
        let mut start: usize = 0;
        if k < v.len() {
            proof {
                lemma_first_index(v@, ':', k as int);
                assert(v@.subrange(0, k as int) =~= v@.take(k as int));
            }
            match parse_number(&v, 0, k) {
                Some(n) => {
                    epoch = Some(n);
                    start = k + 1;
                },
                None => {
                    return Err(DebianVersionError::InvalidEpoch);
                },
            }
        } else {
            assert(v@.skip(0) =~= v@);
        }
        let ghost rest = v@.skip(start as int);
        assert(parse_spec(raw@) == parse_rest(epoch, rest));
        if start == v.len() {
            return Err(DebianVersionError::Empty);
        }
        let mut j: usize = v.len();
        while j > start && v[j - 1] != '-'
            invariant
                start <= j <= v.len(),
                forall|i: int| j <= i < v.len() ==> v@[i] != '-',
            decreases j,
        {
            j -= 1;
        }
        if j > start {
            let d: usize = j - 1;
            proof {
                assert(is_last(rest, '-', d - start));
                lemma_last_index(rest, '-', d - start);
                assert(rest.take(d - start) =~= v@.subrange(start as int, d as int));
                assert(rest.skip(d - start + 1) =~= v@.subrange(j as int, v.len() as int));
            }
            match check_upstream(&v, start, d, true) {
                Err(e) => {
                    return Err(e);
                },
                Ok(_) => {},
            }
            match check_revision(&v, j, v.len()) {
                Err(e) => {
                    return Err(e);
                },
                Ok(_) => {},
            }
            let up = raw.substring_char(start, d).to_owned();
            let rev = raw.substring_char(j, v.len()).to_owned();
            Ok(DebianVersion { epoch, upstream_version: up, debian_revision: Some(rev) })
        } else {
            proof {
                assert forall|i: int| 0 <= i < rest.len() implies rest[i] != '-' by {
                    assert(rest[i] == v@[start + i]);
                }
                assert(rest =~= v@.subrange(start as int, v.len() as int));
            }
            match check_upstream(&v, start, v.len(), false) {
                Err(e) => {
                    return Err(e);
                },
                Ok(_) => {},
            }
            let up = raw.substring_char(start, v.len()).to_owned();
            Ok(DebianVersion { epoch, upstream_version: up, debian_revision: None })
        }
    }
}

/// The text of a version: `[epoch:]upstream_version[-debian_revision]`.
pub open spec fn render(v: VersionView) -> Seq<char> {
    let e = match v.epoch {
        Some(n) => decimal(n as nat) + seq![':'],
        None => Seq::empty(),
    };
    let r = match v.revision {
        Some(t) => seq!['-'] + t,
        None => Seq::empty(),
    };
    e + v.upstream + r
}

impl DebianVersion {
    /// Returns the version as text: `[epoch:]upstream_version[-debian_revision]`,
    /// the epoch and the revision only where present.
    pub fn version(&self) -> (r: String)
        ensures
            r@ == render(self@),
    {
        proof {
            reveal_strlit(":");
            reveal_strlit("-");
        }
        let mut out = String::new();
        match self.epoch {
            Some(n) => {
                push_decimal(&mut out, n);
                out.append(":");
            },
            None => {},
        }
        out.append(self.upstream_version.as_str());
        match &self.debian_revision {
            Some(rev) => {
                out.append("-");
                out.append(rev.as_str());
            },
            None => {},
        }
        assert(out@ =~= render(self@));
        out
    }

    /// Orders two versions: epoch first (absent counts as 0), then the upstream
    /// versions, then the revisions (absent counts as empty).
    pub fn compare(&self, other: &DebianVersion) -> (r: std::cmp::Ordering)
        ensures
            r == ordering_of(version_cmp(self@, other@)),
    {
        let ea: usize = match self.epoch {
            Some(n) => n,
            None => 0,
        };
        let eb: usize = match other.epoch {
            Some(n) => n,
            None => 0,
        };
        if ea < eb {
            return std::cmp::Ordering::Less;
        } else if ea > eb {
            return std::cmp::Ordering::Greater;
        }
        let ua = chars_of(self.upstream_version.as_str());
        let ub = chars_of(other.upstream_version.as_str());
        let u = compare_segments(&ua, &ub);
        match u {
            std::cmp::Ordering::Equal => {},
            _ => {
                return u;
            },
        }
        let ra = match &self.debian_revision {
            Some(t) => chars_of(t.as_str()),
            None => Vec::new(),
        };
        let rb = match &other.debian_revision {
            Some(t) => chars_of(t.as_str()),
            None => Vec::new(),
        };
        assert(ra@ =~= crate::ordering::revision_or_empty(self@.revision));
        assert(rb@ =~= crate::ordering::revision_or_empty(other@.revision));
        compare_segments(&ra, &rb)
    }
}

/// What follows the epoch separator in the text of a version.
pub open spec fn render_body(upstream: Seq<char>, revision: Option<Seq<char>>) -> Seq<char> {
    match revision {
        Some(t) => upstream + seq!['-'] + t,
        None => upstream,
    }
}

/// What a successful parse guarantees of its result.
pub open spec fn parsed_facts(v: VersionView) -> bool {
    &&& upstream_check(v.upstream, v.revision is Some) == Ok::<bool, DebianVersionError>(true)
    &&& v.revision is Some ==> revision_check(v.revision->0) == Ok::<bool, DebianVersionError>(true)
    &&& v.epoch is None ==> !contains_char(render_body(v.upstream, v.revision), ':')
}

/// A character that occurs has a last occurrence.
pub proof fn lemma_last_exists(s: Seq<char>, c: char)
    requires
        contains_char(s, c),
    ensures
        is_last(s, c, last_index(s, c)),
    decreases s.len(),
{
    if s.last() == c {
        lemma_last_index(s, c, s.len() - 1);
    } else {
        let i = choose|i: int| 0 <= i < s.len() && s[i] == c;
        assert(s.drop_last()[i] == c);
        lemma_last_exists(s.drop_last(), c);
        let k = last_index(s.drop_last(), c);
        assert forall|m: int| k < m < s.len() implies s[m] != c by {
            if m < s.len() - 1 {
                assert(s[m] == s.drop_last()[m]);
            }
        }
        lemma_last_index(s, c, k);
    }
}

proof fn lemma_parse_rest_facts(epoch: Option<usize>, rest: Seq<char>)
    requires
        parse_rest(epoch, rest) is Ok,
        epoch is None ==> !contains_char(rest, ':'),
    ensures
        parsed_facts(parse_rest(epoch, rest)->Ok_0),
        parse_rest(epoch, rest)->Ok_0.epoch == epoch,
        render_body(parse_rest(epoch, rest)->Ok_0.upstream, parse_rest(epoch, rest)->Ok_0.revision)
            == rest,
{
    if contains_char(rest, '-') {
        lemma_last_exists(rest, '-');
        let j = last_index(rest, '-');
        assert(rest.take(j) + seq!['-'] + rest.skip(j + 1) =~= rest);
    }
}

/// What a successful parse returns meets [`parsed_facts`].
pub proof fn lemma_parse_facts(s: Seq<char>)
    requires
        parse_spec(s) is Ok,
    ensures
        parsed_facts(parse_spec(s)->Ok_0),
{
    if contains_char(s, ':') {
        let k = first_index(s, ':');
        let n = epoch_check(s.take(k))->Ok_0;
        lemma_parse_rest_facts(Some(n), s.skip(k + 1));
    } else {
        lemma_parse_rest_facts(None, s);
    }
}

/// A successful parse gives a well-formed version.
pub proof fn lemma_parse_wf(s: Seq<char>)
    ensures
        parse_spec(s) is Ok ==> ({
            let v = parse_spec(s)->Ok_0;
            assemble(v.epoch, v.upstream, v.revision) == Ok::<VersionView, DebianVersionError>(v)
        }),
{
    if parse_spec(s) is Ok {
        lemma_parse_facts(s);
    }
}

/// Parsing the text of the upstream version and revision gives them back.
proof fn lemma_parse_rest_render(epoch: Option<usize>, v: VersionView)
    requires
        parsed_facts(v),
    ensures
        parse_rest(epoch, render_body(v.upstream, v.revision)) == Ok::<
            VersionView,
            DebianVersionError,
        >(VersionView { epoch, upstream: v.upstream, revision: v.revision }),
{
    let body = render_body(v.upstream, v.revision);
    let up = v.upstream;
    match v.revision {
        Some(r) => {
            let j = up.len() as int;
            assert(body[j] == '-');
            assert forall|i: int| j < i < body.len() implies body[i] != '-' by {
                assert(body[i] == r[i - j - 1]);
                assert(crate::validations::is_valid_char(r[i - j - 1]));
            }
            lemma_last_index(body, '-', j);
            assert(body.take(j) =~= up);
            assert(body.skip(j + 1) =~= r);
        },
        None => {
            assert forall|i: int| 0 <= i < body.len() implies body[i] != '-' by {
                assert(crate::validations::is_upstream_char(up[i], false));
            }
        },
    }
}

/// Parsing the text of a parsed version gives the same version back, which
/// therefore compares equal to it.
pub proof fn lemma_round_trip(s: Seq<char>)
    requires
        parse_spec(s) is Ok,
    ensures
        parse_spec(render(parse_spec(s)->Ok_0)) == parse_spec(s),
        version_cmp(parse_spec(s)->Ok_0, parse_spec(render(parse_spec(s)->Ok_0))->Ok_0) == 0,
{
    let v = parse_spec(s)->Ok_0;
    lemma_parse_facts(s);
    let t = render(v);
    let body = render_body(v.upstream, v.revision);
    match v.epoch {
        Some(n) => {
            let d = decimal(n as nat);
            crate::text::lemma_decimal(n as nat);
            assert(t =~= d + seq![':'] + body);
            let k = d.len() as int;
            assert(t[k] == ':');
            assert forall|i: int| 0 <= i < k implies t[i] != ':' by {
                assert(t[i] == d[i]);
                assert(crate::validations::is_digit(d[i]));
            }
            lemma_first_index(t, ':', k);
            assert(t.take(k) =~= d);
            assert(t.skip(k + 1) =~= body);
            lemma_parse_rest_render(Some(n), v);
        },
        None => {
            assert(t =~= body);
            lemma_parse_rest_render(None, v);
        },
    }
    crate::ordering::lemma_compare_reflexive(v);
}

/// A version built from its components, if each passes its check: the upstream
/// version first (`-` allowed only with a revision), then the revision.
pub open spec fn assemble(epoch: Option<usize>, upstream: Seq<char>, revision: Option<Seq<char>>) -> Result<
    VersionView,
    DebianVersionError,
> {
    match upstream_check(upstream, revision is Some) {
        Err(e) => Err(e),
        Ok(_) => match revision {
            Some(t) => match revision_check(t) {
                Err(e) => Err(e),
                Ok(_) => Ok(VersionView { epoch, upstream, revision }),
            },
            None => Ok(VersionView { epoch, upstream, revision }),
        },
    }
}

/// The view of an optional string slice.
pub open spec fn opt_str_view(s: Option<&str>) -> Option<Seq<char>> {
    match s {
        Some(t) => Some(t@),
        None => None,
    }
}

/// `new` is what replacing components of `old` gave: the rebuilt version `a`,
/// or `old` unchanged with the error.
pub open spec fn replaced(
    r: Result<(), DebianVersionError>,
    a: Result<VersionView, DebianVersionError>,
    old: DebianVersion,
    new: DebianVersion,
) -> bool {
    match r {
        Ok(_) => a == Ok::<VersionView, DebianVersionError>(new@),
        Err(e) => a == Err::<VersionView, DebianVersionError>(e) && new == old,
    }
}

impl DebianVersion {
    /// Builds a version from its components, checking them as parsing does.
    pub fn from_parts(epoch: Option<usize>, upstream: &str, revision: Option<&str>) -> (r: Result<
        DebianVersion,
        DebianVersionError,
    >)
        ensures
            result_view(r) == assemble(epoch, upstream@, opt_str_view(revision)),
            r matches Ok(v) ==> v.wf(),
    {
        let up = chars_of(upstream);
        assert(up@.subrange(0, up@.len() as int) =~= up@);
        match check_upstream(&up, 0, up.len(), revision.is_some()) {
            Err(e) => {
                return Err(e);
            },
            Ok(_) => {},
        }
        match revision {
            Some(t) => {
                let rv = chars_of(t);
                assert(rv@.subrange(0, rv@.len() as int) =~= rv@);
                match check_revision(&rv, 0, rv.len()) {
                    Err(e) => Err(e),
                    Ok(_) => Ok(
                        DebianVersion {
                            epoch,
                            upstream_version: upstream.to_owned(),
                            debian_revision: Some(t.to_owned()),
                        },
                    ),
                }
            },
            None => Ok(
                DebianVersion { epoch, upstream_version: upstream.to_owned(), debian_revision: None },
            ),
        }
    }

    /// Returns the epoch, if the version has one.
    pub fn epoch(&self) -> (r: Option<usize>)
        ensures
            r == self.epoch,
    {
        self.epoch
    }

    /// Returns a mutable reference to the epoch, if the version has one. Any
    /// value is a valid epoch, so the version stays valid.
    pub fn mut_epoch(&mut self) -> (r: Option<&mut usize>)
        ensures
            match r {
                Some(e) => {
                    &&& old(self).epoch == Some(*e)
                    &&& final(self).epoch == Some(*final(e))
                    &&& final(self).upstream_version == old(self).upstream_version
                    &&& final(self).debian_revision == old(self).debian_revision
                },
                None => old(self).epoch is None && *final(self) == *old(self),
            },
    {
        match &mut self.epoch {
            Some(e) => Some(e),
            None => None,
        }
    }

    /// Returns the upstream version.
    pub fn upstream_version(&self) -> (r: &str)
        ensures
            r@ == self.upstream_version@,
    {
        self.upstream_version.as_str()
    }

    /// Replaces the upstream version by `value` if it passes the upstream check
    /// (with `-` allowed only when the version has a revision); otherwise leaves
    /// the version unchanged and returns the error.
    pub fn mut_upstream_version(&mut self, value: &str) -> (r: Result<(), DebianVersionError>)
        ensures
            replaced(r, assemble(old(self).epoch, value@, old(self)@.revision), *old(self), *final(self)),
            old(self).wf() ==> final(self).wf(),
    {
        let rebuilt = match &self.debian_revision {
            Some(t) => DebianVersion::from_parts(self.epoch, value, Some(t.as_str())),
            None => DebianVersion::from_parts(self.epoch, value, None),
        };
        match rebuilt {
            Ok(v) => {
                *self = v;
                Ok(())
            },
            Err(e) => Err(e),
        }
    }

    /// Applies `f` to the upstream version and keeps the result if it passes
    /// the upstream check; otherwise leaves the version unchanged and returns
    /// the error.
    pub fn map_upstream_version_with<F>(&mut self, f: F) -> (r: Result<(), DebianVersionError>) where
        F: FnOnce(String) -> String,

        requires
            f.requires((old(self).upstream_version,)),
        ensures
            exists|n: String|
                #[trigger] f.ensures((old(self).upstream_version,), n) && replaced(
                    r,
                    assemble(old(self).epoch, n@, old(self)@.revision),
                    *old(self),
                    *final(self),
                ),
            old(self).wf() ==> final(self).wf(),
    {
        let n = f(self.upstream_version.clone());
        self.mut_upstream_version(n.as_str())
    }

    /// Returns the revision, if the version has one.
    pub fn debian_revision(&self) -> (r: &Option<String>)
        ensures
            *r == self.debian_revision,
    {
        &self.debian_revision
    }

    /// Replaces the revision by `value` (or removes it) if the version stays
    /// valid: the upstream version is checked again, since whether it may hold
    /// `-` depends on the revision, then the new revision; otherwise leaves the
    /// version unchanged and returns the error.
    pub fn mut_debian_revision(&mut self, value: Option<&str>) -> (r: Result<(), DebianVersionError>)
        ensures
            replaced(
                r,
                assemble(old(self).epoch, old(self).upstream_version@, opt_str_view(value)),
                *old(self),
                *final(self),
            ),
            old(self).wf() ==> final(self).wf(),
    {
        match DebianVersion::from_parts(self.epoch, self.upstream_version.as_str(), value) {
            Ok(v) => {
                *self = v;
                Ok(())
            },
            Err(e) => Err(e),
        }
    }

    /// Applies `f` to the revision, if there is one, and keeps the result if it
    /// passes the revision check; otherwise leaves the version unchanged and
    /// returns the error. Without a revision nothing changes.
    pub fn map_debian_revision_with<F>(&mut self, f: F) -> (r: Result<(), DebianVersionError>) where
        F: FnOnce(String) -> String,

        requires
            old(self).debian_revision is Some ==> f.requires((old(self).debian_revision->0,)),
        ensures
            old(self).debian_revision is None ==> r is Ok && *final(self) == *old(self),
            old(self).debian_revision is Some ==> exists|n: String|
                #[trigger] f.ensures((old(self).debian_revision->0,), n) && replaced(
                    r,
                    assemble(old(self).epoch, old(self).upstream_version@, Some(n@)),
                    *old(self),
                    *final(self),
                ),
            old(self).wf() ==> final(self).wf(),
    {
        match &self.debian_revision {
            Some(t) => {
                let n = f(t.clone());
                self.mut_debian_revision(Some(n.as_str()))
            },
            None => Ok(()),
        }
    }
}

impl DebianVersion {
    /// The components pass their checks: the upstream version (`-` allowed only
    /// with a revision) and the revision, if any.
    pub open spec fn wf(&self) -> bool {
        assemble(self.epoch, self.upstream_version@, opt_view(self.debian_revision)) == Ok::<
            VersionView,
            DebianVersionError,
        >(self@)
    }
}

impl PartialEq for DebianVersion {
    fn eq(&self, other: &DebianVersion) -> (r: bool) {
        let same_epoch = match (self.epoch, other.epoch) {
            (Some(a), Some(b)) => a == b,
            (None, None) => true,
            _ => false,
        };
        let same_revision = match (&self.debian_revision, &other.debian_revision) {
            (Some(a), Some(b)) => a.eq(b),
            (None, None) => true,
            _ => false,
        };
        let same_upstream = self.upstream_version.eq(&other.upstream_version);
        assert(same_epoch == (self.epoch == other.epoch));
        assert(same_upstream == (self.upstream_version@ == other.upstream_version@));
        assert(same_revision == (opt_view(self.debian_revision) == opt_view(other.debian_revision)));
        same_epoch && same_upstream && same_revision
    }
}

impl vstd::std_specs::cmp::PartialEqSpecImpl for DebianVersion {
    open spec fn obeys_eq_spec() -> bool {
        true
    }

    open spec fn eq_spec(&self, other: &DebianVersion) -> bool {
        self@ == other@
    }
}

impl Eq for DebianVersion {

}

impl std::str::FromStr for DebianVersion {
    type Err = DebianVersionError;

    fn from_str(value: &str) -> (r: Result<DebianVersion, DebianVersionError>)
        ensures
            result_view(r) == parse_spec(value@),
            r matches Ok(v) ==> v.wf(),
    {
        DebianVersion::parse(value)
    }
}

/// An epoch: the number before the first `:` of a version.
#[derive(Copy, Clone, Debug, Default, PartialEq, Eq, Structural)]
pub struct Epoch(pub usize);

/// The epoch that a version text starts with: the digits before its first `:`.
pub open spec fn epoch_prefix_check(s: Seq<char>) -> Result<usize, DebianVersionError> {
    if contains_char(s, ':') {
        epoch_check(s.take(first_index(s, ':')))
    } else {
        Err(DebianVersionError::InvalidEpoch)
    }
}

impl Epoch {
    /// Reads the epoch before the first `:` of `s`; `InvalidEpoch` where there is
    /// no `:` or what precedes it is not a number that fits a `usize`.
    pub fn parse(s: &str) -> (r: Result<Epoch, DebianVersionError>)
        ensures
            match r {
                Ok(e) => epoch_prefix_check(s@) == Ok::<usize, DebianVersionError>(e.0),
                Err(x) => epoch_prefix_check(s@) == Err::<usize, DebianVersionError>(x),
            },
    {
        let v = chars_of(s);
        let k: usize = find_first(&v, ':');
        if k == v.len() {
            return Err(DebianVersionError::InvalidEpoch);
        }
        proof {
            lemma_first_index(v@, ':', k as int);
            assert(v@.subrange(0, k as int) =~= v@.take(k as int));
        }
        match parse_number(&v, 0, k) {
            Some(n) => Ok(Epoch(n)),
            None => Err(DebianVersionError::InvalidEpoch),
        }
    }
}

impl std::str::FromStr for Epoch {
    type Err = DebianVersionError;

    fn from_str(s: &str) -> (r: Result<Epoch, DebianVersionError>)
        ensures
            match r {
                Ok(e) => epoch_prefix_check(s@) == Ok::<usize, DebianVersionError>(e.0),
                Err(x) => epoch_prefix_check(s@) == Err::<usize, DebianVersionError>(x),
            },
    {
        Epoch::parse(s)
    }
}

/// Which components a version text holds.
pub enum VersionKinds {
    /// Epoch and upstream version.
    EpochUp,
    /// Epoch, upstream version and revision.
    EpUpRe,
    /// Only the upstream version.
    U,
    /// Upstream version and revision.
    UR,
}

} // verus!
