//! Exposure allowlists for tools, resources, prompts and skills, and the
//! explainable decision the operator surface shows for each skill.

use vstd::prelude::*;
use crate::text::chars_of;
use vstd::string::StringExecFns;

verus! {

broadcast use vstd::string::group_string_axioms;

/// `*` in a pattern matches any run of characters, every other character
/// matches itself.
pub open spec fn glob_match(p: Seq<char>, s: Seq<char>) -> bool
    decreases p.len() + s.len(),
{
    if p.len() == 0 {
        s.len() == 0
    } else if p[0] == '*' {
        glob_match(p.drop_first(), s) || (s.len() > 0 && glob_match(p, s.drop_first()))
    } else {
        s.len() > 0 && s[0] == p[0] && glob_match(p.drop_first(), s.drop_first())
    }
}

pub open spec fn glob_at(p: Seq<char>, s: Seq<char>, i: int, j: int) -> bool {
    glob_match(p.subrange(i, p.len() as int), s.subrange(j, s.len() as int))
}

proof fn lemma_glob_unfold(p: Seq<char>, s: Seq<char>, i: int, j: int)
    requires
        0 <= i <= p.len(),
        0 <= j <= s.len(),
    ensures
        glob_at(p, s, i, j) == (if i == p.len() {
            j == s.len()
        } else if p[i] == '*' {
            glob_at(p, s, i + 1, j) || (j < s.len() && glob_at(p, s, i, j + 1))
        } else {
            j < s.len() && s[j] == p[i] && glob_at(p, s, i + 1, j + 1)
        }),
{
    let pp = p.subrange(i, p.len() as int);
    let ss = s.subrange(j, s.len() as int);
    if i < p.len() {
        assert(pp.drop_first() =~= p.subrange(i + 1, p.len() as int));
        assert(pp[0] == p[i]);
    }
    if j < s.len() {
        assert(ss.drop_first() =~= s.subrange(j + 1, s.len() as int));
        assert(ss[0] == s[j]);
    }
}

/// Whether `name` matches `pattern`.
pub fn glob_matches(pattern: &str, name: &str) -> (b: bool)
    ensures
        b == glob_match(pattern@, name@),
{
    let p = chars_of(pattern);
    let s = chars_of(name);
    let m = p.len();
    let n = s.len();
    // `next[j]` holds glob_at(i + 1, j) while row `i` is computed.
    let mut next: Vec<bool> = Vec::new();
    let mut j: usize = 0;
    while j < n
        invariant
            j <= n,
            n == s@.len(),
            m == p@.len(),
            next@.len() == j,
            forall|k: int| 0 <= k < j ==> next@[k] == glob_at(p@, s@, m as int, k),
        decreases n - j,
    {
        proof {
            lemma_glob_unfold(p@, s@, m as int, j as int);
        }
        next.push(false);
        j = j + 1;
    }
    proof {
        lemma_glob_unfold(p@, s@, m as int, n as int);
    }
    next.push(true);
    let mut i: usize = m;
    while i > 0
        invariant
            i <= m == p@.len(),
            n == s@.len(),
            next@.len() == n + 1,
            forall|k: int| 0 <= k <= n ==> next@[k] == glob_at(p@, s@, i as int, k),
        decreases i,
    {
        let row_i = i - 1;
        let pc = p[row_i];
        let mut cur: Vec<bool> = Vec::new();
        let mut k: usize = 0;
        while k < n
            invariant
                k <= n,
                cur@.len() == k,
            decreases n - k,
        {
            cur.push(false);
            k = k + 1;
        }
        proof {
            lemma_glob_unfold(p@, s@, row_i as int, n as int);
        }
        cur.push(pc == '*' && next[n]);
        let mut jj: usize = n;
        while jj > 0
            invariant
                jj <= n,
                row_i < m == p@.len(),
                pc == p@[row_i as int],
                n == s@.len(),
                next@.len() == n + 1,
                cur@.len() == n + 1,
                forall|q: int| 0 <= q <= n ==> next@[q] == glob_at(p@, s@, row_i + 1, q),
                forall|q: int| jj <= q <= n ==> cur@[q] == glob_at(p@, s@, row_i as int, q),
            decreases jj,
        {
            let col = jj - 1;
            proof {
                lemma_glob_unfold(p@, s@, row_i as int, col as int);
            }
            let v = if pc == '*' {
                next[col] || cur[col + 1]
            } else {
                s[col] == pc && next[col + 1]
            };
            cur.set(col, v);
            jj = col;
        }
        next = cur;
        i = row_i;
    }
    proof {
        assert(p@.subrange(0, m as int) =~= p@);
        assert(s@.subrange(0, n as int) =~= s@);
    }
    next[0]
}

/// A compiled `expose_*` allowlist.
#[derive(Debug, Clone, PartialEq, Eq)]
pub enum ExposurePolicy {
    /// No allowlist configured: everything is exposed.
    All,
    /// Only names matching one of these patterns are exposed; an empty list
    /// exposes nothing.
    Patterns(Vec<String>),
}

pub type ToolExposurePolicy = ExposurePolicy;

pub type SkillExposurePolicy = ExposurePolicy;

/// Why a pattern list could not be compiled.
#[derive(Debug, Clone, PartialEq, Eq)]
pub enum ExposurePolicyError {
    EmptyPattern,
}

pub open spec fn patterns_view(v: Seq<String>) -> Seq<Seq<char>> {
    v.map_values(|s: String| s@)
}

/// Index of the first pattern matching `name`, if any.
pub open spec fn first_match(pats: Seq<Seq<char>>, name: Seq<char>) -> Option<int>
    decreases pats.len(),
{
    if pats.len() == 0 {
        None
    } else if glob_match(pats[0], name) {
        Some(0)
    } else {
        match first_match(pats.drop_first(), name) {
            Some(k) => Some(k + 1),
            None => None,
        }
    }
}

pub open spec fn shift_index(o: Option<int>, d: int) -> Option<int> {
    match o {
        Some(k) => Some(k + d),
        None => None,
    }
}

impl ExposurePolicy {
    pub open spec fn spec_matched_by(&self, name: Seq<char>) -> Option<Seq<char>> {
        match self {
            ExposurePolicy::All => Some("*"@),
            ExposurePolicy::Patterns(v) => match first_match(patterns_view(v@), name) {
                Some(k) => Some(v@[k]@),
                None => None,
            },
        }
    }

    pub open spec fn spec_matches(&self, name: Seq<char>) -> bool {
        self.spec_matched_by(name).is_some()
    }

    pub fn all() -> (p: Self)
        ensures
            p == ExposurePolicy::All,
    {
        ExposurePolicy::All
    }

    /// Compile an allowlist. An empty pattern is refused; an empty list is a
    /// valid policy that exposes nothing.
    pub fn from_patterns(patterns: Vec<String>) -> (r: Result<Self, ExposurePolicyError>)
        ensures
            (exists|k: int| 0 <= k < patterns@.len() && #[trigger] patterns@[k]@.len() == 0) ==> r
                == Err::<Self, ExposurePolicyError>(ExposurePolicyError::EmptyPattern),
            (forall|k: int| 0 <= k < patterns@.len() ==> #[trigger] patterns@[k]@.len() > 0) ==> r
                == Ok::<Self, ExposurePolicyError>(ExposurePolicy::Patterns(patterns)),
    {
        let mut i: usize = 0;
        while i < patterns.len()
            invariant
                i <= patterns@.len(),
                forall|k: int| 0 <= k < i ==> #[trigger] patterns@[k]@.len() > 0,
            decreases patterns.len() - i,
        {
            if patterns[i].as_str().is_empty() {
                return Err(ExposurePolicyError::EmptyPattern);
            }
            i = i + 1;
        }
        Ok(ExposurePolicy::Patterns(patterns))
    }

    pub fn is_unrestricted(&self) -> (b: bool)
        ensures
            b == (*self == ExposurePolicy::All),
    {
        match self {
            ExposurePolicy::All => true,
            ExposurePolicy::Patterns(_) => false,
        }
    }

    /// The pattern that admits `name` (`"*"` when unrestricted), if any.
    pub fn matched_by(&self, name: &str) -> (m: Option<String>)
        ensures
            match m {
                Some(s) => self.spec_matched_by(name@) == Some(s@),
                None => self.spec_matched_by(name@).is_none(),
            },
    {
        match self {
            ExposurePolicy::All => Some(String::from_str("*")),
            ExposurePolicy::Patterns(v) => {
                let mut i: usize = 0;
                assert(patterns_view(v@).subrange(0, v@.len() as int) =~= patterns_view(v@));
                while i < v.len()
                    invariant
                        i <= v@.len(),
                        *self == ExposurePolicy::Patterns(*v),
                        first_match(patterns_view(v@), name@) == shift_index(first_match(
                            patterns_view(v@).subrange(i as int, v@.len() as int),
                            name@,
                        ), i as int),
                    decreases v.len() - i,
                {
                    let ghost rest = patterns_view(v@).subrange(i as int, v@.len() as int);
                    assert(rest.drop_first() =~= patterns_view(v@).subrange(
                        i + 1,
                        v@.len() as int,
                    ));
                    assert(rest[0] == v@[i as int]@);
                    if glob_matches(v[i].as_str(), name) {
                        assert(first_match(rest, name@) == Some(0int));
                        assert(first_match(patterns_view(v@), name@) == Some(i as int));
                        let r = v[i].clone();
                        assert(r@ == v@[i as int]@);
                        assert(self.spec_matched_by(name@) == Some(v@[i as int]@));
                        return Some(r);
                    }
                    i = i + 1;
                }
                assert(patterns_view(v@).subrange(i as int, v@.len() as int).len() == 0);
                None
            },
        }
    }

    pub fn matches(&self, name: &str) -> (b: bool)
        ensures
            b == self.spec_matches(name@),
    {
        self.matched_by(name).is_some()
    }
}

impl ExposurePolicy {
    /// `None` when unrestricted, otherwise the pattern texts in order.
    pub open spec fn pview(&self) -> Option<Seq<Seq<char>>> {
        match self {
            ExposurePolicy::All => None,
            ExposurePolicy::Patterns(v) => Some(patterns_view(v@)),
        }
    }
}

/// A configured allowlist compiled failing closed: no list exposes
/// everything, an uncompilable list exposes nothing.
pub open spec fn resolved_policy(patterns: Option<Seq<Seq<char>>>) -> Option<Seq<Seq<char>>> {
    match patterns {
        None => None,
        Some(v) => if forall|k: int| 0 <= k < v.len() ==> #[trigger] v[k].len() > 0 {
            Some(v)
        } else {
            Some(Seq::empty())
        },
    }
}

pub open spec fn opt_patterns_view(patterns: Option<Vec<String>>) -> Option<Seq<Seq<char>>> {
    match patterns {
        None => None,
        Some(v) => Some(patterns_view(v@)),
    }
}

/// Resolve the `expose_*` list of one upstream, failing closed.
pub fn resolve_exposure_policy(patterns: Option<Vec<String>>) -> (p: ExposurePolicy)
    ensures
        p.pview() == resolved_policy(opt_patterns_view(patterns)),
{
    match patterns {
        None => ExposurePolicy::All,
        Some(v) => {
            let ghost vv = patterns_view(v@);
            match ExposurePolicy::from_patterns(v) {
                Ok(p) => p,
                Err(_) => {
                    proof {
                        let k = choose|k: int| 0 <= k < v@.len() && #[trigger] v@[k]@.len() == 0;
                        assert(vv[k].len() == 0);
                    }
                    let p = ExposurePolicy::Patterns(Vec::new());
                    assert(p.pview().unwrap() =~= Seq::<Seq<char>>::empty());
                    p
                },
            }
        },
    }
}

/// Why a validated skill is exposed or hidden by the current upstream policy.
#[derive(Debug, Clone, Copy, PartialEq, Eq, Structural)]
pub enum SkillExposureReason {
    AllowAll,
    MatchedPattern,
    NotMatched,
}

impl SkillExposureReason {
    pub open spec fn spec_as_str(self) -> Seq<char> {
        match self {
            SkillExposureReason::AllowAll => "allow_all"@,
            SkillExposureReason::MatchedPattern => "matched_pattern"@,
            SkillExposureReason::NotMatched => "not_matched"@,
        }
    }

    pub fn as_str(self) -> (s: &'static str)
        ensures
            s@ == self.spec_as_str(),
    {
        match self {
            SkillExposureReason::AllowAll => "allow_all",
            SkillExposureReason::MatchedPattern => "matched_pattern",
            SkillExposureReason::NotMatched => "not_matched",
        }
    }
}

/// The complete exposure result for one validated skill.
#[derive(Debug, Clone, PartialEq, Eq)]
pub struct SkillExposureDecision {
    pub exposed: bool,
    pub reason: SkillExposureReason,
    pub matched_pattern: Option<String>,
}

pub open spec fn opt_string_view(o: Option<String>) -> Option<Seq<char>> {
    match o {
        Some(s) => Some(s@),
        None => None,
    }
}

impl SkillExposureDecision {
    /// Evaluate `policy` for one skill name, keeping the rule that decided it.
    pub fn evaluate(policy: &SkillExposurePolicy, skill_name: &str) -> (d: Self)
        ensures
            d.exposed == policy.spec_matches(skill_name@),
            opt_string_view(d.matched_pattern) == policy.spec_matched_by(skill_name@),
            d.reason == (if *policy == ExposurePolicy::All {
                SkillExposureReason::AllowAll
            } else if policy.spec_matches(skill_name@) {
                SkillExposureReason::MatchedPattern
            } else {
                SkillExposureReason::NotMatched
            }),
    {
        if policy.is_unrestricted() {
            SkillExposureDecision {
                exposed: true,
                reason: SkillExposureReason::AllowAll,
                matched_pattern: Some(String::from_str("*")),
            }
        } else {
            match policy.matched_by(skill_name) {
                Some(pattern) => SkillExposureDecision {
                    exposed: true,
                    reason: SkillExposureReason::MatchedPattern,
                    matched_pattern: Some(pattern),
                },
                None => SkillExposureDecision {
                    exposed: false,
                    reason: SkillExposureReason::NotMatched,
                    matched_pattern: None,
                },
            }
        }
    }

    pub fn status(&self) -> (s: &'static str)
        ensures
            s@ == (if self.exposed {
                "exposed"@
            } else {
                "hidden"@
            }),
    {
        if self.exposed {
            "exposed"
        } else {
            "hidden"
        }
    }
}

} // verus!
