//! Participant normalisation: meeting participants, given by name and
//! email, are matched to workspace members, first by normalised email and
//! then by name ignoring case.
use vstd::prelude::*;
use vstd::string::StringSliceAdditionalSpecFns;
use crate::action_items::{trim, trim_spec};
use crate::emit::{
    copies, escaped_chunks, holds_greedy, lemma_copies_concat, lemma_run_holds, put_chunk, put_escaped, signed_chunks,
};
use crate::followup::{objects_from, write_usize};
use crate::scan::{balanced_spec, extract_string_spec, scannable, ws_comma_len};

verus! {

/// The most workspace members read.
pub const MAX_MEMBERS: usize = 32;

/// The most participants read.
pub const MAX_PARTS: usize = 32;

/// The capacity of a stored id, name or email.
pub const STR_MAX: usize = 96;

/// An ASCII letter in lower case.
pub open spec fn lower(b: u8) -> u8 {
    if 65u8 <= b <= 90u8 { (b + 32) as u8 } else { b }
}

/// `s` with its ASCII letters in lower case.
pub open spec fn lower_seq(s: Seq<u8>) -> Seq<u8> {
    s.map_values(|b: u8| lower(b))
}

/// A space or a tab.
pub open spec fn is_blank(b: u8) -> bool {
    b == 32u8 || b == 9u8
}

/// `s` without leading spaces and tabs.
pub open spec fn lead_blank_trim(s: Seq<u8>) -> Seq<u8>
    decreases s.len(),
{
    if s.len() > 0 && is_blank(s[0]) { lead_blank_trim(s.drop_first()) } else { s }
}

/// `s` without trailing spaces and tabs.
pub open spec fn trail_blank_trim(s: Seq<u8>) -> Seq<u8>
    decreases s.len(),
{
    if s.len() > 0 && is_blank(s.last()) { trail_blank_trim(s.drop_last()) } else { s }
}

/// An email address as stored: without surrounding spaces and tabs, in
/// lower case, cut to `cap` bytes.
pub open spec fn normalized_email(s: Seq<u8>, cap: int) -> Seq<u8> {
    let t = trail_blank_trim(lead_blank_trim(s));
    lower_seq(if t.len() <= cap { t } else { t.take(cap) })
}

/// Two byte strings are equal when ASCII case is ignored.
pub open spec fn same_ignoring_case(a: Seq<u8>, b: Seq<u8>) -> bool {
    lower_seq(a) == lower_seq(b)
}

/// An ASCII letter in lower case.
pub fn ascii_lower(b: u8) -> (r: u8)
    ensures
        r == lower(b),
{
    if b >= 65 && b <= 90 {
        b + 32
    } else {
        b
    }
}

/// Whether `a` and `b` are equal when ASCII case is ignored.
pub fn eq_ignore_case(a: &[u8], b: &[u8]) -> (r: bool)
    ensures
        r == same_ignoring_case(a@, b@),
{
    if a.len() != b.len() {
        assert(lower_seq(a@).len() != lower_seq(b@).len());
        return false;
    }
    let mut i: usize = 0;
    while i < a.len()
        invariant
            i <= a@.len(),
            a@.len() == b@.len(),
            forall|k: int| 0 <= k < i ==> lower(a@[k]) == lower(b@[k]),
        decreases a.len() - i,
    {
        if ascii_lower(a[i]) != ascii_lower(b[i]) {
            assert(lower_seq(a@)[i as int] != lower_seq(b@)[i as int]);
            return false;
        }
        i = i + 1;
    }
    assert(lower_seq(a@) =~= lower_seq(b@));
    true
}

/// Writes the normalised form of the email `src` to `dst`; returns its
/// length.
pub fn normalize_email(src: &[u8], dst: &mut [u8]) -> (r: usize)
    ensures
        r <= old(dst)@.len(),
        final(dst)@.len() == old(dst)@.len(),
        final(dst)@.take(r as int) == normalized_email(src@, old(dst)@.len() as int),
{
    let mut i: usize = 0;
    assert(src@.skip(0) =~= src@);
    while i < src.len() && (src[i] == 32 || src[i] == 9)
        invariant
            i <= src@.len(),
            lead_blank_trim(src@) == lead_blank_trim(src@.skip(i as int)),
        decreases src.len() - i,
    {
        assert(src@.skip(i as int).drop_first() =~= src@.skip(i as int + 1));
        i = i + 1;
    }
    let ghost lead = src@.skip(i as int);
    assert(lead_blank_trim(lead) == lead);
    let mut end: usize = src.len();
    assert(lead =~= src@.subrange(i as int, end as int));
    while end > i && (src[end - 1] == 32 || src[end - 1] == 9)
        invariant
            i <= end <= src@.len(),
            lead == src@.skip(i as int),
            trail_blank_trim(lead) == trail_blank_trim(src@.subrange(i as int, end as int)),
        decreases end - i,
    {
        assert(src@.subrange(i as int, end as int).drop_last() =~= src@.subrange(i as int, end - 1));
        end = end - 1;
    }
    let ghost t = src@.subrange(i as int, end as int);
    assert(trail_blank_trim(t) == t);
    let ghost cap = dst@.len() as int;
    let ghost want = normalized_email(src@, cap);
    let start = i;
    let mut j: usize = 0;
    while i < end && j < dst.len()
        invariant
            start <= i <= end <= src@.len(),
            j == i - start,
            j <= cap,
            t == src@.subrange(start as int, end as int),
            cap == dst@.len(),
            want == lower_seq(if t.len() <= cap { t } else { t.take(cap) }),
            forall|k: int| 0 <= k < j ==> dst@[k] == lower(t[k]),
        decreases end - i,
    {
        dst[j] = ascii_lower(src[i]);
        i = i + 1;
        j = j + 1;
    }
    proof {
        if t.len() <= cap {
            assert(j == t.len());
        } else {
            assert(j == cap);
        }
    }
    assert(dst@.take(j as int) =~= want);
    j
}

/// `s` without leading and trailing whitespace.
pub fn trim_ascii(s: &[u8]) -> (r: &[u8])
    ensures
        r@ == trim_spec(s@),
{
    trim(s)
}

/// A workspace member as stored: id, name and email, each in a field of
/// `STR_MAX` bytes with its length.
#[derive(Clone, Copy)]
pub struct Member {
    pub id: [u8; STR_MAX],
    pub id_len: usize,
    pub name: [u8; STR_MAX],
    pub name_len: usize,
    pub email: [u8; STR_MAX],
    pub email_len: usize,
}

/// What a member record holds.
pub ghost struct MemberView {
    pub id: Seq<u8>,
    pub name: Seq<u8>,
    pub email: Seq<u8>,
}

/// The lengths of a stored member fit its fields.
pub open spec fn member_wf(m: Member) -> bool {
    m.id_len <= STR_MAX && m.name_len <= STR_MAX && m.email_len <= STR_MAX
}

/// What a stored member holds.
pub open spec fn member_view(m: Member) -> MemberView {
    MemberView {
        id: m.id@.take(m.id_len as int),
        name: m.name@.take(m.name_len as int),
        email: m.email@.take(m.email_len as int),
    }
}

/// The member a workspace member object describes: one with an id of at
/// most `STR_MAX` bytes, its trimmed name (when that fits) and its
/// normalised email.
pub open spec fn member_of(obj: Seq<u8>) -> Option<MemberView> {
    let id = extract_string_spec(obj, "\"id\"".spec_bytes());
    if id.len() == 0 || id.len() > STR_MAX {
        None
    } else {
        let n = trim_spec(extract_string_spec(obj, "\"name\"".spec_bytes()));
        Some(
            MemberView {
                id,
                name: if n.len() <= STR_MAX { n } else { Seq::empty() },
                email: normalized_email(extract_string_spec(obj, "\"email\"".spec_bytes()), STR_MAX as int),
            },
        )
    }
}

/// The members of the array `arr` from index `i` on, after `acc`; reading
/// stops at `MAX_MEMBERS` members, at the end of the objects, or at a
/// malformed one.
pub open spec fn members_from(arr: Seq<u8>, i: int, acc: Seq<MemberView>) -> Seq<MemberView>
    decreases arr.len() - i,
{
    if i < 0 || i >= arr.len() || acc.len() >= MAX_MEMBERS {
        acc
    } else {
        let j = i + ws_comma_len(arr.skip(i));
        if j >= arr.len() || arr[j] != 123u8 {
            acc
        } else {
            match balanced_spec(arr.skip(j), 123u8, 125u8) {
                Some(e) => if 0 <= e && j + e + 1 <= arr.len() {
                    members_from(
                        arr,
                        j + e + 1,
                        match member_of(arr.subrange(j, j + e + 1)) {
                            Some(m) => acc.push(m),
                            None => acc,
                        },
                    )
                } else {
                    acc
                },
                None => acc,
            }
        }
    }
}

proof fn lemma_participant_keys()
    ensures
        "\"id\"".spec_bytes().len() > 0,
        "\"name\"".spec_bytes().len() > 0,
        "\"email\"".spec_bytes().len() > 0,
        "\"raw_participants\"".spec_bytes().len() > 0,
        "\"workspace_members\"".spec_bytes().len() > 0,
        "\"normalize_config\"".spec_bytes().len() > 0,
{
    broadcast use vstd::string::group_string_axioms;
    reveal_strlit("\"id\"");
    reveal_strlit("\"name\"");
    reveal_strlit("\"email\"");
    reveal_strlit("\"raw_participants\"");
    reveal_strlit("\"workspace_members\"");
    reveal_strlit("\"normalize_config\"");
    assert(vstd::string::is_ascii("\"id\""));
    assert(vstd::string::is_ascii("\"name\""));
    assert(vstd::string::is_ascii("\"email\""));
    assert(vstd::string::is_ascii("\"raw_participants\""));
    assert(vstd::string::is_ascii("\"workspace_members\""));
    assert(vstd::string::is_ascii("\"normalize_config\""));
}

/// `s` in a field of `STR_MAX` bytes.
fn stored(s: &[u8]) -> (r: [u8; STR_MAX])
    requires
        s@.len() <= STR_MAX,
    ensures
        r@.take(s@.len() as int) == s@,
{
    let mut a = [0u8; STR_MAX];
    let ghost z = a@;
    let n = crate::emit::copy(&mut a, 0, s);
    assert(z.take(0) =~= Seq::<u8>::empty());
    assert(Seq::<u8>::empty() + s@ =~= s@);
    a
}

/// The member a workspace member object describes.
fn read_member(obj: &[u8]) -> (r: Option<Member>)
    ensures
        match member_of(obj@) {
            Some(v) => r is Some && member_wf(r->0) && member_view(r->0) == v,
            None => r is None,
        },
{
    proof {
        lemma_participant_keys();
    }
    let id = crate::scan::extract_string(obj, "\"id\"".as_bytes());
    let name = crate::scan::extract_string(obj, "\"name\"".as_bytes());
    let email = crate::scan::extract_string(obj, "\"email\"".as_bytes());
    if id.len() == 0 || id.len() > STR_MAX {
        return None;
    }
    let n = trim_ascii(name);
    let empty: &[u8] = &[];
    assert(empty@ =~= Seq::<u8>::empty());
    let kept = if n.len() <= STR_MAX { n } else { empty };
    let mut em = [0u8; STR_MAX];
    let el = normalize_email(email, &mut em);
    Some(Member { id: stored(id), id_len: id.len(), name: stored(kept), name_len: kept.len(), email: em, email_len: el })
}

/// Reads the workspace members of the array `arr`.
#[verifier::spinoff_prover]
pub fn parse_members(arr: &[u8]) -> (r: Vec<Member>)
    requires
        scannable(arr@),
    ensures
        r@.len() == members_from(arr@, 1, Seq::empty()).len(),
        r@.len() <= MAX_MEMBERS,
        forall|k: int| 0 <= k < r@.len() ==> member_wf(#[trigger] r@[k]) && member_view(r@[k]) == members_from(
            arr@,
            1,
            Seq::empty(),
        )[k],
{
    let mut ms: Vec<Member> = Vec::new();
    let ghost mut acc = Seq::<MemberView>::empty();
    let mut pos: usize = 1;
    while pos < arr.len() && ms.len() < MAX_MEMBERS
        invariant
            1 <= pos,
            pos <= arr@.len() || arr@.len() == 0,
            scannable(arr@),
            members_from(arr@, 1, Seq::empty()) == members_from(arr@, pos as int, acc),
            ms@.len() == acc.len(),
            acc.len() <= MAX_MEMBERS,
            forall|k: int| 0 <= k < ms@.len() ==> member_wf(#[trigger] ms@[k]) && member_view(ms@[k]) == acc[k],
        ensures
            members_from(arr@, 1, Seq::empty()) == acc,
            ms@.len() == acc.len(),
            acc.len() <= MAX_MEMBERS,
            forall|k: int| 0 <= k < ms@.len() ==> member_wf(#[trigger] ms@[k]) && member_view(ms@[k]) == acc[k],
        decreases arr.len() - pos,
    {
        let rest = &arr[pos..arr.len()];
        assert(rest@ =~= arr@.skip(pos as int));
        let skipped_len = crate::scan::skip_ws_comma(rest);
        proof {
            crate::scan::lemma_ws_comma_le(rest@);
        }
        let j = pos + skipped_len;
        if j >= arr.len() || arr[j] != 123 {
            break;
        }
        let tail = &arr[j..arr.len()];
        assert(tail@ =~= arr@.skip(j as int));
        let e = match crate::scan::balanced_end(tail, 123, 125) {
            Some(e) => e,
            None => break,
        };
        let obj = &arr[j..j + e + 1];
        assert(obj@ =~= arr@.subrange(j as int, j + e + 1));
        match read_member(obj) {
            Some(m) => {
                ms.push(m);
                proof {
                    acc = acc.push(member_view(m));
                }
            },
            None => {},
        }
        pos = j + e + 1;
    }
    proof {
        if !(pos < arr.len() && ms.len() < MAX_MEMBERS) {
            assert(members_from(arr@, pos as int, acc) == acc);
        }
    }
    ms
}

/// The stored id of a member.
fn id_of(m: &Member) -> (r: &[u8])
    requires
        member_wf(*m),
    ensures
        r@ == member_view(*m).id,
{
    let s = m.id.as_slice();
    &s[0..m.id_len]
}

/// The stored name of a member.
fn name_of(m: &Member) -> (r: &[u8])
    requires
        member_wf(*m),
    ensures
        r@ == member_view(*m).name,
{
    let s = m.name.as_slice();
    &s[0..m.name_len]
}

/// The stored email of a member.
fn email_of(m: &Member) -> (r: &[u8])
    requires
        member_wf(*m),
    ensures
        r@ == member_view(*m).email,
{
    let s = m.email.as_slice();
    &s[0..m.email_len]
}

/// The first member from `k` on whose email is `e`.
pub open spec fn email_match_from(ms: Seq<MemberView>, e: Seq<u8>, k: int) -> Option<int>
    decreases ms.len() - k,
{
    if k < 0 || k >= ms.len() {
        None
    } else if ms[k].email == e {
        Some(k)
    } else {
        email_match_from(ms, e, k + 1)
    }
}

/// The first member from `k` on with a name that is `n` up to case.
pub open spec fn name_match_from(ms: Seq<MemberView>, n: Seq<u8>, k: int) -> Option<int>
    decreases ms.len() - k,
{
    if k < 0 || k >= ms.len() {
        None
    } else if ms[k].name.len() > 0 && same_ignoring_case(ms[k].name, n) {
        Some(k)
    } else {
        name_match_from(ms, n, k + 1)
    }
}

/// The member a participant resolves to, and how: by email first, then by
/// name.
pub open spec fn resolve_spec(ms: Seq<MemberView>, name: Seq<u8>, email: Seq<u8>) -> Option<(int, Seq<u8>)> {
    if email.len() > 0 && email_match_from(ms, email, 0) is Some {
        Some((email_match_from(ms, email, 0)->0, "email".spec_bytes()))
    } else if name.len() > 0 && name_match_from(ms, name, 0) is Some {
        Some((name_match_from(ms, name, 0)->0, "name".spec_bytes()))
    } else {
        None
    }
}

/// The views of stored members.
pub open spec fn views(ms: Seq<Member>) -> Seq<MemberView> {
    ms.map_values(|m: Member| member_view(m))
}

/// Finds the member that a participant with trimmed name `name` and
/// normalised email `email` resolves to.
pub fn resolve_member(members: &[Member], name: &[u8], email: &[u8]) -> (r: Option<(usize, &'static [u8])>)
    requires
        forall|k: int| 0 <= k < members@.len() ==> member_wf(#[trigger] members@[k]),
    ensures
        match resolve_spec(views(members@), name@, email@) {
            Some((k, method)) => r matches Some((i, m)) && i as int == k && m@ == method,
            None => r is None,
        },
        r matches Some((i, _)) ==> i < members@.len(),
{
    let ghost mv = views(members@);
    if email.len() > 0 {
        let mut k: usize = 0;
        while k < members.len()
            invariant
                k <= members@.len(),
                mv == views(members@),
                forall|t: int| 0 <= t < members@.len() ==> member_wf(#[trigger] members@[t]),
                email_match_from(mv, email@, 0) == email_match_from(mv, email@, k as int),
                email@.len() > 0,
            decreases members.len() - k,
        {
            let m = &members[k];
            assert(mv[k as int] == member_view(*m));
            if crate::scan::bytes_eq(email_of(m), email) {
                return Some((k, "email".as_bytes()));
            }
            k = k + 1;
        }
    }
    if name.len() > 0 {
        let mut k: usize = 0;
        while k < members.len()
            invariant
                k <= members@.len(),
                mv == views(members@),
                forall|t: int| 0 <= t < members@.len() ==> member_wf(#[trigger] members@[t]),
                name_match_from(mv, name@, 0) == name_match_from(mv, name@, k as int),
                name@.len() > 0,
                !(email@.len() > 0 && email_match_from(mv, email@, 0) is Some),
            decreases members.len() - k,
        {
            let m = &members[k];
            assert(mv[k as int] == member_view(*m));
            let mn = name_of(m);
            if mn.len() > 0 && eq_ignore_case(mn, name) {
                return Some((k, "name".as_bytes()));
            }
            k = k + 1;
        }
    }
    None
}

/// An email in the response: `null` when empty, else a string.
pub open spec fn email_chunks(e: Seq<u8>) -> Seq<Seq<u8>> {
    if e.len() == 0 {
        seq!["null".spec_bytes()]
    } else {
        seq!["\"".spec_bytes()] + escaped_chunks(e) + seq!["\"".spec_bytes()]
    }
}

/// The entry of a participant no member matched, numbered `no`.
pub open spec fn unmatched_entry(no: int, name: Seq<u8>, email: Seq<u8>) -> Seq<Seq<u8>> {
    seq!["{\"participant_id\":\"".spec_bytes(), "unmatched-".spec_bytes()] + signed_chunks(no) + seq![
        "\",\"display_name\":\"".spec_bytes(),
    ] + escaped_chunks(name) + seq!["\",\"email\":".spec_bytes()] + email_chunks(email) + seq![
        ",\"match_method\":\"none\"}".spec_bytes(),
    ]
}

/// The entry of a participant matched to member `m` by `method`; the
/// participant's own name stands in for a member without one.
pub open spec fn matched_entry(m: MemberView, name: Seq<u8>, method: Seq<u8>) -> Seq<Seq<u8>> {
    seq!["{\"participant_id\":\"".spec_bytes(), m.id, "\",\"display_name\":\"".spec_bytes()] + escaped_chunks(
        if m.name.len() == 0 { name } else { m.name },
    ) + seq!["\",\"email\":".spec_bytes()] + email_chunks(m.email) + seq![
        ",\"match_method\":\"".spec_bytes(),
        method,
        "\"}".spec_bytes(),
    ]
}

/// The trimmed name of a participant object.
pub open spec fn part_name(obj: Seq<u8>) -> Seq<u8> {
    trim_spec(extract_string_spec(obj, "\"name\"".spec_bytes()))
}

/// The normalised email of a participant object (empty when none).
pub open spec fn part_email(obj: Seq<u8>) -> Seq<u8> {
    let raw = extract_string_spec(obj, "\"email\"".spec_bytes());
    if raw.len() == 0 { Seq::empty() } else { normalized_email(raw, STR_MAX as int) }
}

/// The entries written so far and the counts of matched, unmatched and all
/// participants.
pub ghost struct Tally {
    pub chunks: Seq<Seq<u8>>,
    pub matched: nat,
    pub unmatched: nat,
    pub total: nat,
}

/// The tally after the participant objects `ps` against members `ms`.
pub open spec fn tally(ps: Seq<Seq<u8>>, ms: Seq<MemberView>) -> Tally
    decreases ps.len(),
{
    if ps.len() == 0 {
        Tally { chunks: Seq::empty(), matched: 0, unmatched: 0, total: 0 }
    } else {
        let t = tally(ps.drop_last(), ms);
        let obj = ps.last();
        let comma = if t.total > 0 { seq![",".spec_bytes()] } else { Seq::empty() };
        match resolve_spec(ms, part_name(obj), part_email(obj)) {
            Some((k, method)) => Tally {
                chunks: t.chunks + comma + matched_entry(ms[k], part_name(obj), method),
                matched: t.matched + 1,
                unmatched: t.unmatched,
                total: t.total + 1,
            },
            None => Tally {
                chunks: t.chunks + comma + unmatched_entry(t.unmatched + 1 as int, part_name(obj), part_email(obj)),
                matched: t.matched,
                unmatched: t.unmatched + 1,
                total: t.total + 1,
            },
        }
    }
}

/// Copies an email value as the next chunks.
fn put_email(out: &mut [u8], i: usize, e: &[u8], Ghost(o): Ghost<Seq<u8>>, Ghost(ch): Ghost<Seq<Seq<u8>>>) -> (r: usize)
    requires
        (old(out)@, i as int) == copies(o, 0, ch),
    ensures
        (final(out)@, r as int) == copies(o, 0, ch + email_chunks(e@)),
{
    if e.len() == 0 {
        let r = put_chunk(out, i, "null".as_bytes(), Ghost(o), Ghost(ch));
        return r;
    }
    let mut j = put_chunk(out, i, "\"".as_bytes(), Ghost(o), Ghost(ch));
    let ghost c1 = ch + seq!["\"".spec_bytes()];
    j = put_escaped(out, j, e, Ghost(o), Ghost(c1));
    let ghost c2 = c1 + escaped_chunks(e@);
    j = put_chunk(out, j, "\"".as_bytes(), Ghost(o), Ghost(c2));
    assert(c2 + seq!["\"".spec_bytes()] =~= ch + email_chunks(e@));
    j
}

/// Writes the entry of one participant; returns the index after it.
#[verifier::spinoff_prover]
#[verifier::rlimit(40)]
fn put_participant(
    out: &mut [u8],
    i: usize,
    name: &[u8],
    email: &[u8],
    resolved: Option<(usize, &[u8])>,
    members: &[Member],
    unmatched_no: u32,
    Ghost(o): Ghost<Seq<u8>>,
    Ghost(ch): Ghost<Seq<Seq<u8>>>,
) -> (r: usize)
    requires
        (old(out)@, i as int) == copies(o, 0, ch),
        forall|k: int| 0 <= k < members@.len() ==> member_wf(#[trigger] members@[k]),
        match resolved {
            Some((k, _)) => k < members@.len(),
            None => true,
        },
    ensures
        (final(out)@, r as int) == copies(
            o,
            0,
            ch + match resolved {
                Some((k, method)) => matched_entry(member_view(members@[k as int]), name@, method@),
                None => unmatched_entry(unmatched_no as int, name@, email@),
            },
        ),
{
    let ghost mut c = ch;
    let mut j = put_chunk(out, i, "{\"participant_id\":\"".as_bytes(), Ghost(o), Ghost(c));
    proof { c = c + seq!["{\"participant_id\":\"".spec_bytes()]; }
    match resolved {
        None => {
            j = put_chunk(out, j, "unmatched-".as_bytes(), Ghost(o), Ghost(c));
            proof {
                c = c + seq!["unmatched-".spec_bytes()];
                lemma_copies_concat(o, 0, c, signed_chunks(unmatched_no as int));
            }
            j = write_usize(out, j, unmatched_no as usize);
            proof { c = c + signed_chunks(unmatched_no as int); }
            j = put_chunk(out, j, "\",\"display_name\":\"".as_bytes(), Ghost(o), Ghost(c));
            proof { c = c + seq!["\",\"display_name\":\"".spec_bytes()]; }
            j = put_escaped(out, j, name, Ghost(o), Ghost(c));
            proof { c = c + escaped_chunks(name@); }
            j = put_chunk(out, j, "\",\"email\":".as_bytes(), Ghost(o), Ghost(c));
            proof { c = c + seq!["\",\"email\":".spec_bytes()]; }
            j = put_email(out, j, email, Ghost(o), Ghost(c));
            proof { c = c + email_chunks(email@); }
            j = put_chunk(out, j, ",\"match_method\":\"none\"}".as_bytes(), Ghost(o), Ghost(c));
            proof {
                c = c + seq![",\"match_method\":\"none\"}".spec_bytes()];
                assert(c =~= ch + unmatched_entry(unmatched_no as int, name@, email@));
            }
        },
        Some((k, method)) => {
            let m = &members[k];
            j = put_chunk(out, j, id_of(m), Ghost(o), Ghost(c));
            proof { c = c + seq![member_view(*m).id]; }
            j = put_chunk(out, j, "\",\"display_name\":\"".as_bytes(), Ghost(o), Ghost(c));
            proof { c = c + seq!["\",\"display_name\":\"".spec_bytes()]; }
            let mn = name_of(m);
            let shown = if mn.len() == 0 { name } else { mn };
            j = put_escaped(out, j, shown, Ghost(o), Ghost(c));
            proof { c = c + escaped_chunks(shown@); }
            j = put_chunk(out, j, "\",\"email\":".as_bytes(), Ghost(o), Ghost(c));
            proof { c = c + seq!["\",\"email\":".spec_bytes()]; }
            j = put_email(out, j, email_of(m), Ghost(o), Ghost(c));
            proof { c = c + email_chunks(member_view(*m).email); }
            j = put_chunk(out, j, ",\"match_method\":\"".as_bytes(), Ghost(o), Ghost(c));
            proof { c = c + seq![",\"match_method\":\"".spec_bytes()]; }
            j = put_chunk(out, j, method, Ghost(o), Ghost(c));
            proof { c = c + seq![method@]; }
            j = put_chunk(out, j, "\"}".as_bytes(), Ghost(o), Ghost(c));
            proof {
                c = c + seq!["\"}".spec_bytes()];
                assert(c =~= ch + matched_entry(member_view(members@[k as int]), name@, method@));
            }
        },
    }
    j
}

/// The chunks of a refusal.
pub open spec fn fail_chunks(code: Seq<u8>) -> Seq<Seq<u8>> {
    seq![
        "{\"participants\":[],\"matched_count\":0,\"unmatched_count\":0,\"reason_code\":\"".spec_bytes(),
        code,
        "\",\"evaluation_trace\":[]}".spec_bytes(),
    ]
}

/// Writes a refusal with reason `code`; returns its length.
pub fn fail(out: &mut [u8], code: &[u8]) -> (r: usize)
    ensures
        holds_greedy(final(out)@, r as int, fail_chunks(code@)),
        final(out)@.len() == old(out)@.len(),
{
    let ghost o = out@;
    let ghost c0 = Seq::<Seq<u8>>::empty();
    let mut i = put_chunk(
        out,
        0,
        "{\"participants\":[],\"matched_count\":0,\"unmatched_count\":0,\"reason_code\":\"".as_bytes(),
        Ghost(o),
        Ghost(c0),
    );
    let ghost c1 = c0 + seq!["{\"participants\":[],\"matched_count\":0,\"unmatched_count\":0,\"reason_code\":\"".spec_bytes()];
    i = put_chunk(out, i, code, Ghost(o), Ghost(c1));
    let ghost c2 = c1 + seq![code@];
    i = put_chunk(out, i, "\",\"evaluation_trace\":[]}".as_bytes(), Ghost(o), Ghost(c2));
    proof {
        let c3 = c2 + seq!["\",\"evaluation_trace\":[]}".spec_bytes()];
        assert(c3 =~= fail_chunks(code@));
        lemma_run_holds(o, out@, i as int, c3);
    }
    i
}

/// The chunks after the entries: the counts and the trace.
pub open spec fn summary_chunks(t: Tally) -> Seq<Seq<u8>> {
    seq!["],\"matched_count\":".spec_bytes()] + signed_chunks(t.matched as int) + seq![
        ",\"unmatched_count\":".spec_bytes(),
    ] + signed_chunks(t.unmatched as int) + seq![
        ",\"reason_code\":\"ok\",\"evaluation_trace\":[\"normalized ".spec_bytes(),
    ] + signed_chunks(t.total as int) + seq![" participants\",\"matched ".spec_bytes()] + signed_chunks(
        t.matched as int,
    ) + seq!["\"]}".spec_bytes()]
}

/// The chunks of the response to `input`: invalid input without the
/// participants, the members or the config; else an entry per participant
/// (the first `MAX_PARTS`), the counts and the trace.
pub open spec fn normalize_chunks(input: Seq<u8>) -> Seq<Seq<u8>> {
    let raw = crate::scan::bracketed_at_depth_spec(input, "\"raw_participants\"".spec_bytes(), 1, 91u8, 93u8);
    let marr = crate::scan::bracketed_at_depth_spec(input, "\"workspace_members\"".spec_bytes(), 1, 91u8, 93u8);
    let config = crate::scan::bracketed_at_depth_spec(input, "\"normalize_config\"".spec_bytes(), 1, 123u8, 125u8);
    if raw is None || marr is None || config is None {
        fail_chunks("invalid_input".spec_bytes())
    } else {
        let ps = objects_from(raw->0, 1);
        let t = tally(ps.take(if ps.len() < 32 { ps.len() as int } else { 32 }), members_from(marr->0, 1, Seq::empty()));
        seq!["{\"participants\":[".spec_bytes()] + t.chunks + summary_chunks(t)
    }
}

/// Writes the counts and the trace.
fn put_summary(out: &mut [u8], i: usize, matched: u32, unmatched: u32, total: u32, Ghost(t): Ghost<Tally>, Ghost(o): Ghost<Seq<u8>>, Ghost(ch): Ghost<Seq<Seq<u8>>>) -> (r: usize)
    requires
        (old(out)@, i as int) == copies(o, 0, ch),
        matched == t.matched,
        unmatched == t.unmatched,
        total == t.total,
    ensures
        (final(out)@, r as int) == copies(o, 0, ch + summary_chunks(t)),
{
    let ghost mut c = ch;
    let mut j = put_chunk(out, i, "],\"matched_count\":".as_bytes(), Ghost(o), Ghost(c));
    proof {
        c = c + seq!["],\"matched_count\":".spec_bytes()];
        lemma_copies_concat(o, 0, c, signed_chunks(matched as int));
    }
    j = write_usize(out, j, matched as usize);
    proof { c = c + signed_chunks(matched as int); }
    j = put_chunk(out, j, ",\"unmatched_count\":".as_bytes(), Ghost(o), Ghost(c));
    proof {
        c = c + seq![",\"unmatched_count\":".spec_bytes()];
        lemma_copies_concat(o, 0, c, signed_chunks(unmatched as int));
    }
    j = write_usize(out, j, unmatched as usize);
    proof { c = c + signed_chunks(unmatched as int); }
    j = put_chunk(out, j, ",\"reason_code\":\"ok\",\"evaluation_trace\":[\"normalized ".as_bytes(), Ghost(o), Ghost(c));
    proof {
        c = c + seq![",\"reason_code\":\"ok\",\"evaluation_trace\":[\"normalized ".spec_bytes()];
        lemma_copies_concat(o, 0, c, signed_chunks(total as int));
    }
    j = write_usize(out, j, total as usize);
    proof { c = c + signed_chunks(total as int); }
    j = put_chunk(out, j, " participants\",\"matched ".as_bytes(), Ghost(o), Ghost(c));
    proof {
        c = c + seq![" participants\",\"matched ".spec_bytes()];
        lemma_copies_concat(o, 0, c, signed_chunks(matched as int));
    }
    j = write_usize(out, j, matched as usize);
    proof { c = c + signed_chunks(matched as int); }
    j = put_chunk(out, j, "\"]}".as_bytes(), Ghost(o), Ghost(c));
    proof {
        c = c + seq!["\"]}".spec_bytes()];
        assert(c =~= ch + summary_chunks(t));
    }
    j
}

proof fn lemma_tally_counts(ps: Seq<Seq<u8>>, ms: Seq<MemberView>)
    ensures
        tally(ps, ms).matched + tally(ps, ms).unmatched == tally(ps, ms).total,
        tally(ps, ms).total == ps.len(),
    decreases ps.len(),
{
    if ps.len() > 0 {
        lemma_tally_counts(ps.drop_last(), ms);
    }
}

/// Writes the entry of participant object `obj`, the next after `seen`;
/// returns the index after it and the new counts.
#[verifier::spinoff_prover]
#[verifier::rlimit(40)]
fn step_participant(
    out: &mut [u8],
    i: usize,
    obj: &[u8],
    members: &[Member],
    matched: u32,
    unmatched: u32,
    total: u32,
    Ghost(o): Ghost<Seq<u8>>,
    Ghost(head): Ghost<Seq<Seq<u8>>>,
    Ghost(seen): Ghost<Seq<Seq<u8>>>,
    Ghost(ms): Ghost<Seq<MemberView>>,
) -> (r: (usize, u32, u32))
    requires
        views(members@) == ms,
        forall|k: int| 0 <= k < members@.len() ==> member_wf(#[trigger] members@[k]),
        (old(out)@, i as int) == copies(o, 0, head + tally(seen, ms).chunks),
        matched == tally(seen, ms).matched,
        unmatched == tally(seen, ms).unmatched,
        total == tally(seen, ms).total,
        total < 32,
    ensures
        ({
            let t2 = tally(seen.push(obj@), ms);
            &&& (final(out)@, r.0 as int) == copies(o, 0, head + t2.chunks)
            &&& r.1 == t2.matched
            &&& r.2 == t2.unmatched
            &&& t2.total == total + 1
        }),
{
    proof {
        lemma_participant_keys();
        assert(seen.push(obj@).drop_last() =~= seen);
        lemma_tally_counts(seen, ms);
    }
    let name = trim_ascii(crate::scan::extract_string(obj, "\"name\"".as_bytes()));
    let email_raw = crate::scan::extract_string(obj, "\"email\"".as_bytes());
    let mut email_buf = [0u8; STR_MAX];
    let email_len = if email_raw.len() == 0 {
        0
    } else {
        normalize_email(email_raw, &mut email_buf)
    };
    let eb = email_buf.as_slice();
    let email = &eb[0..email_len];
    assert(email@ =~= part_email(obj@));
    let resolved = resolve_member(members, name, email);
    let ghost t = tally(seen, ms);
    let ghost mut c = head + t.chunks;
    let mut j = i;
    if total > 0 {
        j = put_chunk(out, j, ",".as_bytes(), Ghost(o), Ghost(c));
        proof { c = c + seq![",".spec_bytes()]; }
    }
    assert(c =~= head + t.chunks + (if t.total > 0 { seq![",".spec_bytes()] } else { Seq::<Seq<u8>>::empty() }));
    let no = if resolved.is_none() { unmatched + 1 } else { unmatched };
    j = put_participant(out, j, name, email, resolved, members, no, Ghost(o), Ghost(c));
    let mut m2 = matched;
    let mut u2 = unmatched;
    match resolved {
        Some(_) => {
            m2 = matched + 1;
        },
        None => {
            u2 = unmatched + 1;
        },
    }
    proof {
        let t2 = tally(seen.push(obj@), ms);
        assert(head + t2.chunks =~= head + t.chunks + (if t.total > 0 { seq![",".spec_bytes()] } else { Seq::<Seq<u8>>::empty() })
            + match resolve_spec(ms, part_name(obj@), part_email(obj@)) {
            Some((k, method)) => matched_entry(ms[k], part_name(obj@), method),
            None => unmatched_entry(t.unmatched + 1 as int, part_name(obj@), part_email(obj@)),
        });
    }
    (j, m2, u2)
}

/// Matches the participants of `input` to its workspace members and
/// writes the response document to `out`; returns its length.
#[verifier::spinoff_prover]
#[verifier::rlimit(60)]
pub fn evaluate(input: &[u8], out: &mut [u8]) -> (r: usize)
    requires
        scannable(input@),
    ensures
        holds_greedy(final(out)@, r as int, normalize_chunks(input@)),
        final(out)@.len() == old(out)@.len(),
{
    proof {
        lemma_participant_keys();
    }
    let raw = crate::scan::array_after_key_at_depth(input, "\"raw_participants\"".as_bytes(), 1);
    let marr = crate::scan::array_after_key_at_depth(input, "\"workspace_members\"".as_bytes(), 1);
    let config = crate::scan::object_after_key_at_depth(input, "\"normalize_config\"".as_bytes(), 1);
    if raw.is_none() || marr.is_none() || config.is_none() {
        return fail(out, "invalid_input".as_bytes());
    }
    let raw = match raw {
        Some(a) => a,
        None => return fail(out, "invalid_input".as_bytes()),
    };
    let marr = match marr {
        Some(a) => a,
        None => return fail(out, "invalid_input".as_bytes()),
    };
    let members = parse_members(marr);
    let ghost ms = members_from(marr@, 1, Seq::empty());
    assert(views(members@) =~= ms);
    let ms_slice = members.as_slice();
    let ghost o = out@;
    let ghost head = seq!["{\"participants\":[".spec_bytes()];
    let mut i = put_chunk(out, 0, "{\"participants\":[".as_bytes(), Ghost(o), Ghost(Seq::<Seq<u8>>::empty()));
    assert(Seq::<Seq<u8>>::empty() + head =~= head);
    let mut matched: u32 = 0;
    let mut unmatched: u32 = 0;
    let mut total: u32 = 0;
    let ghost mut seen = Seq::<Seq<u8>>::empty();
    assert(head + tally(seen, ms).chunks =~= head);
    let mut pos: usize = 1;
    while pos < raw.len() && total < 32
        invariant
            1 <= pos,
            pos <= raw@.len() || raw@.len() == 0,
            scannable(raw@),
            objects_from(raw@, 1) == seen + objects_from(raw@, pos as int),
            views(ms_slice@) == ms,
            forall|k: int| 0 <= k < ms_slice@.len() ==> member_wf(#[trigger] ms_slice@[k]),
            (out@, i as int) == copies(o, 0, head + tally(seen, ms).chunks),
            matched == tally(seen, ms).matched,
            unmatched == tally(seen, ms).unmatched,
            total == tally(seen, ms).total,
            total == seen.len(),
            total <= 32,
        ensures
            objects_from(raw@, 1) == seen + objects_from(raw@, pos as int),
            (out@, i as int) == copies(o, 0, head + tally(seen, ms).chunks),
            matched == tally(seen, ms).matched,
            unmatched == tally(seen, ms).unmatched,
            total == tally(seen, ms).total,
            total == seen.len(),
            total <= 32,
            total < 32 ==> objects_from(raw@, pos as int) == Seq::<Seq<u8>>::empty(),
        decreases raw.len() - pos,
    {
        let rest = &raw[pos..raw.len()];
        assert(rest@ =~= raw@.skip(pos as int));
        let skipped_len = crate::scan::skip_ws_comma(rest);
        proof {
            crate::scan::lemma_ws_comma_le(rest@);
        }
        let j = pos + skipped_len;
        if j >= raw.len() || raw[j] != 123 {
            break;
        }
        let tail = &raw[j..raw.len()];
        assert(tail@ =~= raw@.skip(j as int));
        let e = match crate::scan::balanced_end(tail, 123, 125) {
            Some(e) => e,
            None => break,
        };
        let obj = &raw[j..j + e + 1];
        proof {
            assert(obj@ =~= raw@.subrange(j as int, j + e + 1));
            assert(objects_from(raw@, pos as int) == seq![obj@] + objects_from(raw@, j + e + 1));
            assert(seen + objects_from(raw@, pos as int) =~= seen.push(obj@) + objects_from(raw@, j + e + 1));
            assert(seen.push(obj@).drop_last() =~= seen);
        }
        let res = step_participant(out, i, obj, ms_slice, matched, unmatched, total, Ghost(o), Ghost(head), Ghost(seen), Ghost(ms));
        i = res.0;
        matched = res.1;
        unmatched = res.2;
        total = total + 1;
        proof {
            seen = seen.push(obj@);
        }
        pos = j + e + 1;
    }
    proof {
        let all = objects_from(raw@, 1);
        if total < 32 {
            assert(all =~= seen);
        }
        assert(all.take(if all.len() < 32 { all.len() as int } else { 32 }) =~= seen);
    }
    let ghost t = tally(seen, ms);
    i = put_summary(out, i, matched, unmatched, total, Ghost(t), Ghost(o), Ghost(head + t.chunks));
    proof {
        assert(head + t.chunks + summary_chunks(t) =~= normalize_chunks(input@));
        lemma_run_holds(o, out@, i as int, head + t.chunks + summary_chunks(t));
    }
    i
}

} // verus!
