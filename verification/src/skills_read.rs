//! Manifest-bound, integrity-checked reads of proxied Agent Skill files: which
//! manifest entry a read is bound to, how large a response may be before it
//! is decoded, and the checks a served file must pass.

use base64::Engine;
use vstd::prelude::*;
use vstd::utf8::encode_utf8;
use crate::kv::{kv_get, kv_map};
use crate::skills_cache::{SkillBindingRef, SkillRecord, UpstreamSkills};
use crate::text::{concat_parts, concat_views, u64_to_decimal_string};
use crate::text::decimal;

verus! {

broadcast use vstd::string::group_string_axioms;

/// One content block of a `resources/read` answer.
#[derive(Debug)]
pub enum SkillContent {
    Text { text: String, mime_type: Option<String> },
    Blob { blob: String, mime_type: Option<String> },
    /// A representation skill files never use.
    Unsupported,
}

/// Trailing `=` bytes of a base64 text, at most two.
pub open spec fn base64_padding(b: Seq<u8>) -> nat {
    if b.len() >= 1 && b[b.len() - 1] == 61 {
        if b.len() >= 2 && b[b.len() - 2] == 61 {
            2
        } else {
            1
        }
    } else {
        0
    }
}

/// Raw bytes a padded base64 text of `b` decodes to, `None` when the
/// arithmetic does not come out.
pub open spec fn base64_raw_len(b: Seq<u8>) -> Option<nat> {
    let groups = b.len() / 4;
    if groups * 3 >= base64_padding(b) {
        Some((groups * 3 - base64_padding(b)) as nat)
    } else {
        None
    }
}

/// A content block whose decoded body is larger than `cap`.
pub open spec fn exceeds_cap(c: SkillContent, cap: usize) -> bool {
    match c {
        SkillContent::Text { text, .. } => encode_utf8(text@).len() > cap,
        SkillContent::Blob { blob, .. } => match base64_raw_len(encode_utf8(blob@)) {
            Some(n) => n > cap,
            None => true,
        },
        SkillContent::Unsupported => false,
    }
}

/// The size a skill read response is held to: `usize::MAX` as soon as one
/// block's body exceeds the caller's cap (without encoding anything), the
/// encoded size estimate otherwise.
pub fn skill_read_response_size(contents: &Vec<SkillContent>, content_cap: usize, estimated: usize) -> (n:
    usize)
    ensures
        n == if exists|k: int| 0 <= k < contents@.len() && #[trigger] exceeds_cap(contents@[k], content_cap) {
            usize::MAX
        } else {
            estimated
        },
{
    let mut i: usize = 0;
    while i < contents.len()
        invariant
            i <= contents@.len(),
            forall|k: int| 0 <= k < i ==> !#[trigger] exceeds_cap(contents@[k], content_cap),
        decreases contents.len() - i,
    {
        let over = match &contents[i] {
            SkillContent::Text { text, .. } => text.as_str().as_bytes().len() > content_cap,
            SkillContent::Blob { blob, .. } => {
                let b = blob.as_str().as_bytes();
                let len = b.len();
                let padding: usize = if len >= 1 && b[len - 1] == 61u8 {
                    if len >= 2 && b[len - 2] == 61u8 {
                        2
                    } else {
                        1
                    }
                } else {
                    0
                };
                let groups = len / 4;
                assert(groups * 3 <= len) by (nonlinear_arith)
                    requires
                        groups == len / 4,
                ;
                let whole = groups * 3;
                if whole >= padding {
                    whole - padding > content_cap
                } else {
                    true
                }
            },
            SkillContent::Unsupported => false,
        };
        if over {
            assert(exceeds_cap(contents@[i as int], content_cap));
            return usize::MAX;
        }
        i = i + 1;
    }
    estimated
}

/// `base64`'s standard, padded decoding of `text`; `None` when malformed.
pub uninterp spec fn base64_standard_decode(text: Seq<char>) -> Option<Seq<u8>>;

/// Decode with `base64::engine::general_purpose::STANDARD`. The contract
/// claims only that the outcome is a function of the text.
#[verifier::external_body]
fn decode_base64_standard(text: &str) -> (r: Option<Vec<u8>>)
    ensures
        match r {
            Some(v) => base64_standard_decode(text@) == Some(v@),
            None => base64_standard_decode(text@).is_none(),
        },
{
    base64::engine::general_purpose::STANDARD.decode(text).ok()
}

/// The bytes of one skill file as served.
#[derive(Debug)]
pub struct DecodedSkillContent {
    pub bytes: Vec<u8>,
    pub is_blob: bool,
    pub mime_type: Option<String>,
}

/// Why a proxied skill read was refused.
#[derive(Debug, PartialEq, Eq)]
pub enum SkillReadError {
    /// The served file disagrees with its manifest, or is malformed.
    Integrity(String),
    /// The URI does not identify exactly one exposed skill file.
    Stale(String),
    /// The file exceeds the caller's read limit.
    TooLarge(String),
}

pub open spec fn integrity_message(e: SkillReadError) -> Option<Seq<char>> {
    match e {
        SkillReadError::Integrity(m) => Some(m@),
        _ => None,
    }
}

/// A blob block once base64 decoding has answered: its bytes, or the
/// integrity failure of malformed base64.
pub fn decoded_blob_content(upstream: &str, decoded: Option<Vec<u8>>, mime_type: Option<String>) -> (r:
    Result<DecodedSkillContent, SkillReadError>)
    ensures
        match decoded {
            Some(bytes) => r matches Ok(d) && d.bytes@ == bytes@ && d.is_blob && d.mime_type
                == mime_type,
            None => r matches Err(SkillReadError::Integrity(m)) && m@ == "upstream `"@ + upstream@
                + "` returned malformed base64 for a skill resource"@,
        },
{
    match decoded {
        Some(bytes) => Ok(DecodedSkillContent { bytes, is_blob: true, mime_type }),
        None => {
            let m = concat_parts(
                vec!["upstream `", upstream, "` returned malformed base64 for a skill resource"],
            );
            proof {
                reveal_with_fuel(concat_views, 4);
            }
            Err(SkillReadError::Integrity(m))
        },
    }
}

/// The one block of a single-file answer, decoded.
pub open spec fn spec_decode_single(upstream: Seq<char>, contents: Seq<SkillContent>) -> Result<
    (Seq<u8>, bool),
    Seq<char>,
> {
    if contents.len() != 1 {
        Err("upstream `"@ + upstream + "` returned "@ + decimal(contents.len()) + " content blocks for one skill file"@)
    } else {
        match contents[0] {
            SkillContent::Text { text, .. } => Ok((encode_utf8(text@), false)),
            SkillContent::Blob { blob, .. } => match base64_standard_decode(blob@) {
                Some(bytes) => Ok((bytes, true)),
                None => Err("upstream `"@ + upstream + "` returned malformed base64 for a skill resource"@),
            },
            SkillContent::Unsupported => Err("upstream returned an unsupported skill resource representation"@),
        }
    }
}

/// Decode the single content block a skill file read must answer with.
pub fn decode_single_content(upstream: &str, contents: Vec<SkillContent>) -> (r: Result<
    DecodedSkillContent,
    SkillReadError,
>)
    ensures
        match r {
            Ok(d) => spec_decode_single(upstream@, contents@) == Ok::<(Seq<u8>, bool), Seq<char>>(
                (d.bytes@, d.is_blob),
            ),
            Err(e) => integrity_message(e).is_some() && spec_decode_single(upstream@, contents@)
                == Err::<(Seq<u8>, bool), Seq<char>>(integrity_message(e).unwrap()),
        },
{
    let n = contents.len();
    if n != 1 {
        let count = u64_to_decimal_string(n as u64);
        let m = concat_parts(
            vec!["upstream `", upstream, "` returned", " ", count.as_str(), " content blocks for one skill file"],
        );
        proof {
            reveal_strlit("upstream `");
            reveal_strlit("` returned");
            reveal_strlit(" ");
            reveal_strlit(" content blocks for one skill file");
            reveal_strlit("` returned ");
            reveal_with_fuel(concat_views, 7);
            assert(m@ =~= "upstream `"@ + upstream@ + "` returned "@ + decimal(n as nat)
                + " content blocks for one skill file"@);
        }
        return Err(SkillReadError::Integrity(m));
    }
    let mut contents = contents;
    let content = contents.pop().unwrap();
    match content {
        SkillContent::Text { text, mime_type } => {
            let bytes = text.as_str().as_bytes_vec();
            Ok(DecodedSkillContent { bytes, is_blob: false, mime_type })
        },
        SkillContent::Blob { blob, mime_type } => decoded_blob_content(
            upstream,
            decode_base64_standard(blob.as_str()),
            mime_type,
        ),
        SkillContent::Unsupported => {
            let m = concat_parts(vec!["upstream returned an unsupported skill resource representation"]);
            proof {
                reveal_strlit("upstream returned an unsupported skill resource representation");
                reveal_with_fuel(concat_views, 2);
            }
            Err(SkillReadError::Integrity(m))
        },
    }
}

} // verus!

verus! {

/// What checking the published digest found.
#[derive(Debug, Clone, Copy, PartialEq, Eq, Structural)]
pub enum DigestVerdict {
    /// The manifest's digest could not be parsed.
    Unusable,
    Mismatch,
    Match,
}

/// What checking a served `SKILL.md` against its manifest frontmatter found.
#[derive(Debug, Clone, Copy, PartialEq, Eq, Structural)]
pub enum FrontmatterVerdict {
    NotUtf8,
    Unparseable,
    Disagrees,
    Agrees,
}

/// Why a served file fails verification, in the order the checks run.
pub open spec fn spec_verify_failure(
    upstream: Seq<char>,
    canonical_uri: Seq<char>,
    len: usize,
    max_bytes: Option<usize>,
    declared_size: u64,
    digest: DigestVerdict,
    is_skill_md: bool,
    is_blob: bool,
    frontmatter: FrontmatterVerdict,
) -> Option<SkillReadErrorView> {
    if max_bytes matches Some(limit) && len > limit {
        Some(SkillReadErrorView::TooLarge)
    } else if digest == DigestVerdict::Unusable {
        Some(SkillReadErrorView::Integrity("upstream `"@ + upstream + "` published an unusable digest"@))
    } else if declared_size > usize::MAX {
        Some(
            SkillReadErrorView::Integrity(
                "manifest size for `"@ + canonical_uri + "` from upstream `"@ + upstream
                    + "` cannot be represented by this host"@,
            ),
        )
    } else if len != declared_size {
        Some(
            SkillReadErrorView::Integrity(
                "content of `"@ + canonical_uri + "` from upstream `"@ + upstream + "` is "@ + decimal(
                    len as nat,
                ) + " bytes but its entry declared "@ + decimal(declared_size as nat),
            ),
        )
    } else if digest == DigestVerdict::Mismatch {
        Some(
            SkillReadErrorView::Integrity(
                "content of `"@ + canonical_uri + "` from upstream `"@ + upstream
                    + "` does not match the digest its entry published"@,
            ),
        )
    } else if is_skill_md && is_blob {
        Some(
            SkillReadErrorView::Integrity(
                "`SKILL.md` from upstream `"@ + upstream + "` must be an MCP text resource"@,
            ),
        )
    } else if is_skill_md && frontmatter == FrontmatterVerdict::NotUtf8 {
        Some(SkillReadErrorView::Integrity("`SKILL.md` from upstream `"@ + upstream + "` is not UTF-8 text"@))
    } else if is_skill_md && frontmatter == FrontmatterVerdict::Unparseable {
        Some(
            SkillReadErrorView::Integrity(
                "`SKILL.md` from upstream `"@ + upstream + "` has unparseable frontmatter"@,
            ),
        )
    } else if is_skill_md && frontmatter == FrontmatterVerdict::Disagrees {
        Some(
            SkillReadErrorView::Integrity(
                "`SKILL.md` from upstream `"@ + upstream
                    + "` disagrees with the frontmatter its entry published"@,
            ),
        )
    } else {
        None
    }
}

/// A [`SkillReadError`] by kind and message text.
pub enum SkillReadErrorView {
    Integrity(Seq<char>),
    TooLarge,
}

pub open spec fn error_view(e: SkillReadError) -> SkillReadErrorView {
    match e {
        SkillReadError::TooLarge(_) => SkillReadErrorView::TooLarge,
        SkillReadError::Integrity(m) => SkillReadErrorView::Integrity(m@),
        SkillReadError::Stale(m) => SkillReadErrorView::Integrity(m@),
    }
}

fn integrity(parts: Vec<&str>) -> (e: SkillReadError)
    ensures
        e matches SkillReadError::Integrity(m) && m@ == concat_views(parts@),
{
    SkillReadError::Integrity(concat_parts(parts))
}

/// Check a served file against the manifest entry it is bound to: the
/// caller's size limit, the digest, the declared size, and for `SKILL.md` its
/// representation and frontmatter.
pub fn verify_skill_content(
    upstream: &str,
    canonical_uri: &str,
    len: usize,
    max_bytes: Option<usize>,
    declared_size: u64,
    digest: DigestVerdict,
    is_skill_md: bool,
    is_blob: bool,
    frontmatter: FrontmatterVerdict,
) -> (r: Result<(), SkillReadError>)
    ensures
        match r {
            Ok(()) => spec_verify_failure(
                upstream@,
                canonical_uri@,
                len,
                max_bytes,
                declared_size,
                digest,
                is_skill_md,
                is_blob,
                frontmatter,
            ).is_none(),
            Err(e) => spec_verify_failure(
                upstream@,
                canonical_uri@,
                len,
                max_bytes,
                declared_size,
                digest,
                is_skill_md,
                is_blob,
                frontmatter,
            ) == Some(error_view(e)) && !(e matches SkillReadError::Stale(_)),
        },
{
    proof {
        reveal_with_fuel(concat_views, 9);
    }
    match max_bytes {
        Some(limit) => if len > limit {
            let l = u64_to_decimal_string(limit as u64);
            return Err(
                SkillReadError::TooLarge(
                    concat_parts(
                        vec![
                            "skill resource from upstream `",
                            upstream,
                            "` exceeds the ",
                            l.as_str(),
                            " byte read limit",
                        ],
                    ),
                ),
            );
        },
        None => {},
    }
    if digest == DigestVerdict::Unusable {
        return Err(integrity(vec!["upstream `", upstream, "` published an unusable digest"]));
    }
    if declared_size as u128 > usize::MAX as u128 {
        return Err(
            integrity(
                vec![
                    "manifest size for `",
                    canonical_uri,
                    "` from upstream `",
                    upstream,
                    "` cannot be represented by this host",
                ],
            ),
        );
    }
    assert(usize::MAX <= u64::MAX);
    if len as u64 != declared_size {
        let got = u64_to_decimal_string(len as u64);
        let want = u64_to_decimal_string(declared_size);
        assert(len as u64 as nat == len as nat);
        let e = integrity(
            vec![
                "content of `",
                canonical_uri,
                "` from upstream `",
                upstream,
                "` is ",
                got.as_str(),
                " bytes but its entry declared ",
                want.as_str(),
            ],
        );
        return Err(e);
    }
    if digest == DigestVerdict::Mismatch {
        return Err(
            integrity(
                vec![
                    "content of `",
                    canonical_uri,
                    "` from upstream `",
                    upstream,
                    "` does not match the digest its entry published",
                ],
            ),
        );
    }
    if is_skill_md {
        if is_blob {
            return Err(integrity(vec!["`SKILL.md` from upstream `", upstream, "` must be an MCP text resource"]));
        }
        match frontmatter {
            FrontmatterVerdict::NotUtf8 => {
                return Err(integrity(vec!["`SKILL.md` from upstream `", upstream, "` is not UTF-8 text"]));
            },
            FrontmatterVerdict::Unparseable => {
                return Err(
                    integrity(vec!["`SKILL.md` from upstream `", upstream, "` has unparseable frontmatter"]),
                );
            },
            FrontmatterVerdict::Disagrees => {
                return Err(
                    integrity(
                        vec![
                            "`SKILL.md` from upstream `",
                            upstream,
                            "` disagrees with the frontmatter its entry published",
                        ],
                    ),
                );
            },
            FrontmatterVerdict::Agrees => {},
        }
    }
    Ok(())
}

/// The stale-binding refusal for `uri` on `upstream`.
pub fn stale_skill_binding(upstream: &str, uri: &str) -> (e: SkillReadError)
    ensures
        e matches SkillReadError::Stale(m) && m@ == "`"@ + uri@ + "` on upstream `"@ + upstream@
            + "` does not identify exactly one exposed skill file"@,
{
    proof {
        reveal_with_fuel(concat_views, 6);
    }
    SkillReadError::Stale(
        concat_parts(
            vec!["`", uri, "` on upstream `", upstream, "` does not identify exactly one exposed skill file"],
        ),
    )
}

/// Every index entry points at a listed skill.
pub open spec fn index_refs_valid(s: UpstreamSkills) -> bool {
    forall|u: Seq<char>|
        #[trigger] kv_map(s.resource_index@).dom().contains(u) ==> forall|k: int|
            0 <= k < kv_map(s.resource_index@)[u]@.len() ==> #[trigger] kv_map(
                s.resource_index@,
            )[u]@[k].skill < s.skills@.len()
}

/// Where a listed skill file read goes.
#[derive(Debug, Clone, Copy, PartialEq, Eq, Structural)]
pub enum ListedBinding {
    /// Exactly one exposed, expected skill carries the URI: skill `skill`'s
    /// resource `resource`.
    Bound { skill: usize, resource: usize },
    /// No single listed binding; the URI is stale.
    Stale,
    /// No listed binding, but the caller named a skill: try its direct manifest.
    TryDirect,
}

/// The listed bindings of `uri` a read may use: naming a listed skill,
/// exposed by the policy and, when the caller names a skill, of that skill.
pub open spec fn usable_refs(
    s: UpstreamSkills,
    refs: Seq<SkillBindingRef>,
    policy: crate::exposure::ExposurePolicy,
    expected: Option<Seq<char>>,
) -> Seq<SkillBindingRef>
    decreases refs.len(),
{
    if refs.len() == 0 {
        Seq::empty()
    } else {
        let r = usable_refs(s, refs.drop_last(), policy, expected);
        let b = refs.last();
        let skill = s.skills@[b.skill as int];
        if b.skill < s.skills@.len() && policy.spec_matches(skill.name@) && (match expected {
            Some(e) => skill.uri@ == e,
            None => true,
        }) {
            r.push(b)
        } else {
            r
        }
    }
}

pub open spec fn spec_listed_binding(
    s: UpstreamSkills,
    policy: crate::exposure::ExposurePolicy,
    expected: Option<Seq<char>>,
    uri: Seq<char>,
) -> ListedBinding {
    let refs = if kv_map(s.resource_index@).dom().contains(uri) {
        kv_map(s.resource_index@)[uri]@
    } else {
        Seq::empty()
    };
    let usable = usable_refs(s, refs, policy, expected);
    if usable.len() == 1 {
        let b = usable[0];
        if b.resource < s.skills@[b.skill as int].resources@.len() {
            ListedBinding::Bound { skill: b.skill, resource: b.resource }
        } else {
            ListedBinding::Stale
        }
    } else if usable.len() > 1 {
        ListedBinding::Stale
    } else if expected.is_none() {
        ListedBinding::Stale
    } else {
        ListedBinding::TryDirect
    }
}

pub open spec fn opt_str(o: Option<&str>) -> Option<Seq<char>> {
    match o {
        Some(s) => Some(s@),
        None => None,
    }
}

/// Bind a skill file read to the one listed manifest entry that carries it.
pub fn resolve_listed_binding(
    skills: &UpstreamSkills,
    policy: &crate::exposure::ExposurePolicy,
    expected_skill_uri: Option<&str>,
    canonical_uri: &str,
) -> (b: ListedBinding)
    ensures
        b == spec_listed_binding(*skills, *policy, opt_str(expected_skill_uri), canonical_uri@),
{
    let empty: Vec<SkillBindingRef> = Vec::new();
    let refs = match kv_get(&skills.resource_index, canonical_uri) {
        Some(r) => r,
        None => &empty,
    };
    let mut usable: Vec<SkillBindingRef> = Vec::new();
    let mut i: usize = 0;
    while i < refs.len()
        invariant
            i <= refs@.len(),
            usable@ == usable_refs(
                *skills,
                refs@.subrange(0, i as int),
                *policy,
                opt_str(expected_skill_uri),
            ),
            forall|k: int| 0 <= k < usable@.len() ==> #[trigger] usable@[k].skill < skills.skills@.len(),
        decreases refs.len() - i,
    {
        proof {
            assert(refs@.subrange(0, i + 1).drop_last() =~= refs@.subrange(0, i as int));
        }
        let b = refs[i];
        if b.skill < skills.skills.len() {
            let skill = &skills.skills[b.skill];
            let expected_ok = match expected_skill_uri {
                Some(e) => crate::order::compare_str(skill.uri.as_str(), e) == crate::order::Cmp::Equal,
                None => true,
            };
            if policy.matches(skill.name.as_str()) && expected_ok {
                usable.push(b);
            }
        }
        i = i + 1;
    }
    proof {
        assert(refs@.subrange(0, refs@.len() as int) =~= refs@);
    }
    if usable.len() == 1 {
        let b = usable[0];
        if b.resource < skills.skills[b.skill].resources.len() {
            return ListedBinding::Bound { skill: b.skill, resource: b.resource };
        }
        return ListedBinding::Stale;
    }
    if usable.len() > 1 || expected_skill_uri.is_none() {
        return ListedBinding::Stale;
    }
    ListedBinding::TryDirect
}

/// The first resource of a direct manifest that is `canonical_uri`.
pub open spec fn direct_resource(skill: SkillRecord, canonical_uri: Seq<char>) -> Option<int> {
    first_resource(skill.resources@, canonical_uri)
}

pub open spec fn first_resource(rs: Seq<crate::skills_cache::SkillResourceEntry>, uri: Seq<char>) -> Option<int>
    decreases rs.len(),
{
    if rs.len() == 0 {
        None
    } else if rs[0].uri@ == uri {
        Some(0)
    } else {
        match first_resource(rs.drop_first(), uri) {
            Some(k) => Some(k + 1),
            None => None,
        }
    }
}

/// Bind a read to a resource of a cached direct manifest.
pub fn resolve_direct_binding(skill: &SkillRecord, canonical_uri: &str) -> (k: Option<usize>)
    ensures
        match k {
            Some(i) => direct_resource(*skill, canonical_uri@) == Some(i as int),
            None => direct_resource(*skill, canonical_uri@).is_none(),
        },
{
    let rs = &skill.resources;
    let n = rs.len();
    let mut i: usize = 0;
    proof {
        assert(rs@.subrange(0, n as int) =~= rs@);
    }
    while i < n
        invariant
            i <= n == rs@.len(),
            rs@ == skill.resources@,
            first_resource(rs@, canonical_uri@) == match first_resource(
                rs@.subrange(i as int, n as int),
                canonical_uri@,
            ) {
                Some(k) => Some(k + i),
                None => None,
            },
        decreases n - i,
    {
        proof {
            let rest = rs@.subrange(i as int, n as int);
            assert(rest[0] == rs@[i as int]);
            assert(rest.drop_first() =~= rs@.subrange(i + 1, n as int));
        }
        if crate::order::compare_str(rs[i].uri.as_str(), canonical_uri) == crate::order::Cmp::Equal {
            proof {
                let rest = rs@.subrange(i as int, n as int);
                assert(rest[0].uri@ == canonical_uri@);
                assert(first_resource(rest, canonical_uri@) == Some(0int));
            }
            return Some(i);
        }
        i = i + 1;
    }
    None
}

} // verus!
