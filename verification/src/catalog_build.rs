//! The capability catalog: the capability, persona and event records of a
//! request, each list sorted by reference, each entry carrying its whole
//! source object, and the search index of the capabilities.
use vstd::prelude::*;
use vstd::string::StringSliceAdditionalSpecFns;
use crate::scan::{
    balanced_end, balanced_spec, bracketed_at_depth_spec, extract_string_at_depth, extract_string_at_depth_spec,
    find_key_at_depth, has_prefix, index_of, index_of_byte, key_at_depth_spec, object_after_key_at_depth, scannable,
    skip_ws, skip_ws_comma, skip_ws_spec, starts_with, value_start, value_start_spec, lemma_ws_comma_le,
    bracketed_spec, bracketed_at_depth, string_body, string_body_spec, array_after_key_at_depth,
};
use crate::followup::{array_objects, objects_from};
use crate::catalog::{
    lex_lt, bytes_lt, reference_spec, capability_reference, build_search_index, index_keys, index_wf, lists,
    some_entry_lists, some_text_has, text_tokens, views, SearchIndex, append, to_vec,
};
use crate::emit::{copy_chunk, holds_greedy, lemma_holds_greedy_start};

verus! {

proof fn lemma_catalog_keys()
    ensures
        "\"capabilities\"".spec_bytes().len() > 0,
        "\"personas\"".spec_bytes().len() > 0,
        "\"events\"".spec_bytes().len() > 0,
        "\"contract\"".spec_bytes().len() > 0,
        "\"namespace\"".spec_bytes().len() > 0,
        "\"id\"".spec_bytes().len() > 0,
        "\"version\"".spec_bytes().len() > 0,
        "\"deprecated\"".spec_bytes().len() > 0,
        "\"test_coverage\"".spec_bytes().len() > 0,
        "\"summary\"".spec_bytes().len() > 0,
        "\"description\"".spec_bytes().len() > 0,
        "\"use_cases\"".spec_bytes().len() > 0,
        "\"persona\"".spec_bytes().len() > 0,
        "\"product\"".spec_bytes().len() > 0,
{
    broadcast use vstd::string::group_string_axioms;
    reveal_strlit("\"capabilities\"");
    reveal_strlit("\"personas\"");
    reveal_strlit("\"events\"");
    reveal_strlit("\"contract\"");
    reveal_strlit("\"namespace\"");
    reveal_strlit("\"id\"");
    reveal_strlit("\"version\"");
    reveal_strlit("\"deprecated\"");
    reveal_strlit("\"test_coverage\"");
    reveal_strlit("\"summary\"");
    reveal_strlit("\"description\"");
    reveal_strlit("\"use_cases\"");
    reveal_strlit("\"persona\"");
    reveal_strlit("\"product\"");
}

/// The byte strings of a vector of slices.
pub open spec fn slices_view(v: Seq<&[u8]>) -> Seq<Seq<u8>> {
    v.map_values(|s: &[u8]| s@)
}

/// The objects of the JSON array `arr`, in order.
pub fn objects_in<'a>(arr: &'a [u8]) -> (r: Vec<&'a [u8]>)
    requires
        scannable(arr@),
    ensures
        slices_view(r@) == array_objects(arr@),
        forall|k: int| 0 <= k < r@.len() ==> (#[trigger] r@[k])@.len() <= arr@.len(),
{
    let mut r: Vec<&'a [u8]> = Vec::new();
    if !(arr.len() > 0 && arr[0] == 91) {
        assert(slices_view(r@) =~= Seq::<Seq<u8>>::empty());
        return r;
    }
    let mut i: usize = 1;
    assert(slices_view(r@) =~= Seq::<Seq<u8>>::empty());
    while i < arr.len()
        invariant
            1 <= i <= arr@.len(),
            scannable(arr@),
            arr@.len() > 0 && arr@[0] == 91u8,
            array_objects(arr@) == slices_view(r@) + objects_from(arr@, i as int),
            forall|k: int| 0 <= k < r@.len() ==> (#[trigger] r@[k])@.len() <= arr@.len(),
        ensures
            array_objects(arr@) == slices_view(r@),
            forall|k: int| 0 <= k < r@.len() ==> (#[trigger] r@[k])@.len() <= arr@.len(),
        decreases arr.len() - i,
    {
        let rest = &arr[i..arr.len()];
        assert(rest@ =~= arr@.skip(i as int));
        let skipped_len = skip_ws_comma(rest);
        proof {
            lemma_ws_comma_le(rest@);
        }
        let j = i + skipped_len;
        if j >= arr.len() || arr[j] != 123 {
            assert(objects_from(arr@, i as int) =~= Seq::<Seq<u8>>::empty());
            assert(slices_view(r@) + Seq::<Seq<u8>>::empty() =~= slices_view(r@));
            break;
        }
        let tail = &arr[j..arr.len()];
        assert(tail@ =~= arr@.skip(j as int));
        let e = match balanced_end(tail, 123, 125) {
            Some(e) => e,
            None => {
                assert(objects_from(arr@, i as int) =~= Seq::<Seq<u8>>::empty());
                assert(slices_view(r@) + Seq::<Seq<u8>>::empty() =~= slices_view(r@));
                break;
            },
        };
        let obj = &arr[j..j + e + 1];
        let ghost before = slices_view(r@);
        r.push(obj);
        proof {
            assert(obj@ =~= arr@.subrange(j as int, j + e + 1));
            assert(objects_from(arr@, i as int) == seq![obj@] + objects_from(arr@, j + e + 1));
            assert(slices_view(r@) =~= before.push(obj@));
            assert(before + objects_from(arr@, i as int) =~= slices_view(r@) + objects_from(arr@, j + e + 1));
        }
        i = j + e + 1;
    }
    proof {
        if i >= arr.len() {
            assert(objects_from(arr@, i as int) =~= Seq::<Seq<u8>>::empty());
            assert(slices_view(r@) + Seq::<Seq<u8>>::empty() =~= slices_view(r@));
        }
    }
    r
}

/// Whether `key` at depth 1 of `hay` holds `true`.
pub open spec fn flag_at(hay: Seq<u8>, key: Seq<u8>) -> bool {
    match key_at_depth_spec(hay, key, 1) {
        Some(p) => match value_start_spec(hay.skip(p + key.len())) {
            Some(rest) => has_prefix(rest, "true".spec_bytes()),
            None => false,
        },
        None => false,
    }
}

/// Reads the flag `key` at depth 1 of `hay` (false when absent).
fn flag(hay: &[u8], key: &[u8]) -> (r: bool)
    requires
        scannable(hay@),
        key@.len() > 0,
    ensures
        r == flag_at(hay@, key@),
{
    match find_key_at_depth(hay, key, 1) {
        Some(p) => {
            let after = &hay[p + key.len()..hay.len()];
            assert(after@ =~= hay@.skip(p + key@.len()));
            match value_start(after) {
                Some(rest) => starts_with(rest, "true".as_bytes()),
                None => false,
            }
        },
        None => false,
    }
}

/// The bracketed value that opens `rest`, by its opening bracket.
pub open spec fn bracketed_value(rest: Seq<u8>) -> Option<Seq<u8>> {
    if rest.len() > 0 && rest[0] == 123u8 {
        bracketed_spec(rest, 123u8, 125u8)
    } else if rest.len() > 0 && rest[0] == 91u8 {
        bracketed_spec(rest, 91u8, 93u8)
    } else {
        None
    }
}

/// The object or array that `key` at depth 1 of `hay` holds, else `null`.
pub open spec fn structured_or_null(hay: Seq<u8>, key: Seq<u8>) -> Seq<u8> {
    match key_at_depth_spec(hay, key, 1) {
        Some(p) => match value_start_spec(hay.skip(p + key.len())) {
            Some(rest) => match bracketed_value(rest) {
                Some(v) => v,
                None => "null".spec_bytes(),
            },
            None => "null".spec_bytes(),
        },
        None => "null".spec_bytes(),
    }
}

/// The bracketed value that opens `rest`, when one does.
fn bracketed_value_exec<'a>(rest: &'a [u8]) -> (r: Option<&'a [u8]>)
    requires
        scannable(rest@),
    ensures
        match bracketed_value(rest@) {
            Some(v) => r is Some && r->0@ == v,
            None => r is None,
        },
{
    if rest.len() > 0 && (rest[0] == 123 || rest[0] == 91) {
        let close: u8 = if rest[0] == 123 { 125 } else { 93 };
        match balanced_end(rest, rest[0], close) {
            Some(e) => {
                let v = &rest[0..e + 1];
                assert(v@ =~= rest@.take(e + 1));
                Some(v)
            },
            None => None,
        }
    } else {
        None
    }
}

/// Copies the object or array that `key` at depth 1 of `hay` holds, else
/// writes `null`.
fn structured_or_null_exec(hay: &[u8], key: &[u8]) -> (r: Vec<u8>)
    requires
        scannable(hay@),
        key@.len() > 0,
    ensures
        r@ == structured_or_null(hay@, key@),
{
    let found = match find_key_at_depth(hay, key, 1) {
        Some(p) => {
            let after = &hay[p + key.len()..hay.len()];
            assert(after@ =~= hay@.skip(p + key@.len()));
            match value_start(after) {
                Some(rest) => bracketed_value_exec(rest),
                None => None,
            }
        },
        None => None,
    };
    match found {
        Some(v) => to_vec(v),
        None => to_vec("null".as_bytes()),
    }
}

/// The string leaves of the JSON value `v` from index `i` on, each after a
/// space: the bodies of its string literals that are not keys.
pub open spec fn leaves_from(v: Seq<u8>, i: int) -> Seq<u8>
    decreases v.len() - i,
{
    if i < 0 || i >= v.len() {
        Seq::empty()
    } else if v[i] == 34u8 {
        match index_of(v.skip(i + 1), 34u8) {
            Some(e) => if e < 0 || i + 2 + e > v.len() {
                Seq::empty()
            } else {
                let after = skip_ws_spec(v.skip(i + 2 + e));
                if after.len() > 0 && after[0] == 58u8 {
                    leaves_from(v, i + 2 + e)
                } else {
                    seq![32u8] + v.subrange(i + 1, i + 1 + e) + leaves_from(v, i + 2 + e)
                }
            },
            None => Seq::empty(),
        }
    } else {
        leaves_from(v, i + 1)
    }
}

/// Appends the string leaves of `v`, each after a space.
fn append_leaves(v: &[u8], out: &mut Vec<u8>)
    ensures
        final(out)@ == old(out)@ + leaves_from(v@, 0),
{
    let ghost o0 = out@;
    let mut i: usize = 0;
    while i < v.len()
        invariant
            i <= v@.len(),
            o0 == old(out)@,
            o0 + leaves_from(v@, 0) == out@ + leaves_from(v@, i as int),
        decreases v@.len() - i,
    {
        if v[i] == 34 {
            let rest = &v[i + 1..v.len()];
            assert(rest@ =~= v@.skip(i + 1));
            match index_of_byte(rest, 34) {
                None => {
                    assert(index_of(v@.skip(i + 1), 34u8) is None);
                    assert(leaves_from(v@, i as int) =~= Seq::<u8>::empty());
                    assert(out@ + leaves_from(v@, i as int) =~= out@);
                    return;
                },
                Some(e) => {
                    let tail = &v[i + 2 + e..v.len()];
                    assert(tail@ =~= v@.skip(i + 2 + e));
                    let after = skip_ws(tail);
                    if !(after.len() > 0 && after[0] == 58) {
                        let body = &v[i + 1..i + 1 + e];
                        assert(body@ =~= v@.subrange(i + 1, i + 1 + e));
                        let ghost before = out@;
                        out.push(32);
                        append(out, body);
                        assert(before + (seq![32u8] + body@ + leaves_from(v@, i + 2 + e)) =~= out@ + leaves_from(
                            v@,
                            i + 2 + e,
                        ));
                    }
                    i = i + 2 + e;
                },
            }
        } else {
            i = i + 1;
        }
    }
    assert(out@ + leaves_from(v@, i as int) =~= out@);
}


/// An entry of the catalog: its reference, its deprecated flag, the whole
/// source object it was read from, and for a capability its test coverage
/// and its search text.
pub struct CatalogEntry {
    pub reference: Vec<u8>,
    pub deprecated: bool,
    pub source: Vec<u8>,
    pub coverage: Vec<u8>,
    pub text: Vec<u8>,
}

pub ghost struct EntryView {
    pub reference: Seq<u8>,
    pub deprecated: bool,
    pub source: Seq<u8>,
    pub coverage: Seq<u8>,
    pub text: Seq<u8>,
}

pub open spec fn entry_view(e: CatalogEntry) -> EntryView {
    EntryView {
        reference: e.reference@,
        deprecated: e.deprecated,
        source: e.source@,
        coverage: e.coverage@,
        text: e.text@,
    }
}

pub open spec fn entry_views(v: Seq<CatalogEntry>) -> Seq<EntryView> {
    v.map_values(|e: CatalogEntry| entry_view(e))
}

/// The three lists of the catalog.
#[derive(Clone, Copy, PartialEq, Eq, Structural)]
pub enum Section {
    Capabilities,
    Personas,
    Events,
}

/// The search text that the use cases of a contract add: their string
/// leaves, each after a space.
pub open spec fn use_cases_text(c: Seq<u8>) -> Seq<u8> {
    let key = "\"use_cases\"".spec_bytes();
    match key_at_depth_spec(c, key, 1) {
        Some(p) => match value_start_spec(c.skip(p + key.len())) {
            Some(rest) => match bracketed_value(rest) {
                Some(v) => leaves_from(v, 0),
                None => if rest.len() > 0 && rest[0] == 34u8 {
                    seq![32u8] + string_body_spec(rest)
                } else {
                    Seq::empty()
                },
            },
            None => Seq::empty(),
        },
        None => Seq::empty(),
    }
}

/// The catalog entry of one record of `section`, or none when the record
/// lacks its object or an identity field.
pub open spec fn entry_spec(section: Section, record: Seq<u8>) -> Option<EntryView> {
    match section {
        Section::Capabilities => match bracketed_at_depth_spec(record, "\"contract\"".spec_bytes(), 1, 123u8, 125u8) {
            Some(c) => {
                let ns = extract_string_at_depth_spec(c, "\"namespace\"".spec_bytes(), 1);
                let id = extract_string_at_depth_spec(c, "\"id\"".spec_bytes(), 1);
                let ver = extract_string_at_depth_spec(c, "\"version\"".spec_bytes(), 1);
                if ns.len() == 0 || id.len() == 0 || ver.len() == 0 {
                    None
                } else {
                    Some(
                        EntryView {
                            reference: reference_spec(ns, id, ver),
                            deprecated: flag_at(record, "\"deprecated\"".spec_bytes()),
                            source: c,
                            coverage: structured_or_null(record, "\"test_coverage\"".spec_bytes()),
                            text: ns + seq![32u8] + id + seq![32u8] + extract_string_at_depth_spec(
                                c,
                                "\"summary\"".spec_bytes(),
                                1,
                            ) + seq![32u8] + extract_string_at_depth_spec(c, "\"description\"".spec_bytes(), 1)
                                + use_cases_text(c),
                        },
                    )
                }
            },
            None => None,
        },
        Section::Personas => match bracketed_at_depth_spec(record, "\"persona\"".spec_bytes(), 1, 123u8, 125u8) {
            Some(p) => {
                let id = extract_string_at_depth_spec(p, "\"id\"".spec_bytes(), 1);
                let ver = extract_string_at_depth_spec(p, "\"version\"".spec_bytes(), 1);
                if id.len() == 0 || ver.len() == 0 {
                    None
                } else {
                    Some(
                        EntryView {
                            reference: id + seq![64u8] + ver,
                            deprecated: false,
                            source: p,
                            coverage: Seq::empty(),
                            text: Seq::empty(),
                        },
                    )
                }
            },
            None => None,
        },
        Section::Events => match bracketed_at_depth_spec(record, "\"product\"".spec_bytes(), 1, 123u8, 125u8) {
            Some(pr) => match bracketed_at_depth_spec(pr, "\"contract\"".spec_bytes(), 1, 123u8, 125u8) {
                Some(c) => {
                    let ns = extract_string_at_depth_spec(c, "\"namespace\"".spec_bytes(), 1);
                    let id = extract_string_at_depth_spec(c, "\"id\"".spec_bytes(), 1);
                    let ver = extract_string_at_depth_spec(c, "\"version\"".spec_bytes(), 1);
                    if ns.len() == 0 || id.len() == 0 || ver.len() == 0 {
                        None
                    } else {
                        Some(
                            EntryView {
                                reference: reference_spec(ns, id, ver),
                                deprecated: flag_at(record, "\"deprecated\"".spec_bytes()),
                                source: pr,
                                coverage: Seq::empty(),
                                text: Seq::empty(),
                            },
                        )
                    }
                },
                None => None,
            },
            None => None,
        },
    }
}

/// Appends the use-case text of the contract `c`.
fn append_use_cases(c: &[u8], text: &mut Vec<u8>)
    requires
        scannable(c@),
    ensures
        final(text)@ == old(text)@ + use_cases_text(c@),
{
    proof {
        lemma_catalog_keys();
    }
    let key = "\"use_cases\"".as_bytes();
    let ghost t0 = text@;
    match find_key_at_depth(c, key, 1) {
        Some(p) => {
            let after = &c[p + key.len()..c.len()];
            assert(after@ =~= c@.skip(p + key@.len()));
            match value_start(after) {
                Some(rest) => match bracketed_value_exec(rest) {
                    Some(v) => append_leaves(v, text),
                    None => {
                        if rest.len() > 0 && rest[0] == 34 {
                            text.push(32);
                            append(text, string_body(rest));
                            assert(text@ =~= t0 + (seq![32u8] + string_body_spec(rest@)));
                        } else {
                            assert(text@ =~= t0 + Seq::<u8>::empty());
                        }
                    },
                },
                None => {
                    assert(text@ =~= t0 + Seq::<u8>::empty());
                },
            }
        },
        None => {
            assert(text@ =~= t0 + Seq::<u8>::empty());
        },
    }
}

/// Reads the namespace, id and version of `c` (depth 1); none when one is
/// empty.
fn identity<'a>(c: &'a [u8]) -> (r: Option<(&'a [u8], &'a [u8], &'a [u8])>)
    requires
        scannable(c@),
    ensures
        ({
            let ns = extract_string_at_depth_spec(c@, "\"namespace\"".spec_bytes(), 1);
            let id = extract_string_at_depth_spec(c@, "\"id\"".spec_bytes(), 1);
            let ver = extract_string_at_depth_spec(c@, "\"version\"".spec_bytes(), 1);
            if ns.len() == 0 || id.len() == 0 || ver.len() == 0 {
                r is None
            } else {
                r is Some && (r->0).0@ == ns && (r->0).1@ == id && (r->0).2@ == ver
            }
        }),
{
    proof {
        lemma_catalog_keys();
    }
    let ns = extract_string_at_depth(c, "\"namespace\"".as_bytes(), 1);
    let id = extract_string_at_depth(c, "\"id\"".as_bytes(), 1);
    let ver = extract_string_at_depth(c, "\"version\"".as_bytes(), 1);
    if ns.len() == 0 || id.len() == 0 || ver.len() == 0 {
        None
    } else {
        Some((ns, id, ver))
    }
}

/// The catalog entry of one record of `section`.
pub fn entry_of(section: Section, record: &[u8]) -> (r: Option<CatalogEntry>)
    requires
        scannable(record@),
    ensures
        match entry_spec(section, record@) {
            Some(v) => r is Some && entry_view(r->0) == v,
            None => r is None,
        },
{
    proof {
        lemma_catalog_keys();
    }
    match section {
        Section::Capabilities => {
            let c = match object_after_key_at_depth(record, "\"contract\"".as_bytes(), 1) {
                Some(c) => c,
                None => {
                    return None;
                },
            };
            let (ns, id, ver) = match identity(c) {
                Some(t) => t,
                None => {
                    return None;
                },
            };
            let mut text: Vec<u8> = Vec::new();
            append(&mut text, ns);
            text.push(32);
            append(&mut text, id);
            text.push(32);
            append(&mut text, extract_string_at_depth(c, "\"summary\"".as_bytes(), 1));
            text.push(32);
            append(&mut text, extract_string_at_depth(c, "\"description\"".as_bytes(), 1));
            append_use_cases(c, &mut text);
            let e = CatalogEntry {
                reference: capability_reference(ns, id, ver),
                deprecated: flag(record, "\"deprecated\"".as_bytes()),
                source: to_vec(c),
                coverage: structured_or_null_exec(record, "\"test_coverage\"".as_bytes()),
                text,
            };
            proof {
                let v = entry_spec(section, record@)->0;
                assert(e.text@ =~= v.text);
            }
            Some(e)
        },
        Section::Personas => {
            let p = match object_after_key_at_depth(record, "\"persona\"".as_bytes(), 1) {
                Some(p) => p,
                None => {
                    return None;
                },
            };
            let id = extract_string_at_depth(p, "\"id\"".as_bytes(), 1);
            let ver = extract_string_at_depth(p, "\"version\"".as_bytes(), 1);
            if id.len() == 0 || ver.len() == 0 {
                return None;
            }
            let mut reference: Vec<u8> = Vec::new();
            append(&mut reference, id);
            reference.push(64);
            append(&mut reference, ver);
            let e = CatalogEntry { reference, deprecated: false, source: to_vec(p), coverage: Vec::new(), text: Vec::new() };
            proof {
                let v = entry_spec(section, record@)->0;
                assert(e.reference@ =~= v.reference);
                assert(e.coverage@ =~= v.coverage);
                assert(e.text@ =~= v.text);
            }
            Some(e)
        },
        Section::Events => {
            let pr = match object_after_key_at_depth(record, "\"product\"".as_bytes(), 1) {
                Some(pr) => pr,
                None => {
                    return None;
                },
            };
            let c = match object_after_key_at_depth(pr, "\"contract\"".as_bytes(), 1) {
                Some(c) => c,
                None => {
                    return None;
                },
            };
            let (ns, id, ver) = match identity(c) {
                Some(t) => t,
                None => {
                    return None;
                },
            };
            let e = CatalogEntry {
                reference: capability_reference(ns, id, ver),
                deprecated: flag(record, "\"deprecated\"".as_bytes()),
                source: to_vec(pr),
                coverage: Vec::new(),
                text: Vec::new(),
            };
            proof {
                let v = entry_spec(section, record@)->0;
                assert(e.coverage@ =~= v.coverage);
                assert(e.text@ =~= v.text);
            }
            Some(e)
        },
    }
}


/// Inserts `x` after every entry whose reference does not come after its
/// own, so that entries with equal references keep their order.
pub open spec fn insert_by_ref(s: Seq<EntryView>, x: EntryView) -> Seq<EntryView>
    decreases s.len(),
{
    if s.len() == 0 {
        seq![x]
    } else if lex_lt(x.reference, s[0].reference) {
        seq![x] + s
    } else {
        seq![s[0]] + insert_by_ref(s.drop_first(), x)
    }
}

/// The entries sorted by reference in byte order; entries with equal
/// references keep their order.
pub open spec fn sort_by_ref(s: Seq<EntryView>) -> Seq<EntryView>
    decreases s.len(),
{
    if s.len() == 0 {
        s
    } else {
        insert_by_ref(sort_by_ref(s.drop_last()), s.last())
    }
}

/// The entries of the records `objs` of `section`, in record order,
/// records without an entry skipped.
pub open spec fn collect(section: Section, objs: Seq<Seq<u8>>) -> Seq<EntryView>
    decreases objs.len(),
{
    if objs.len() == 0 {
        Seq::empty()
    } else {
        let prev = collect(section, objs.drop_last());
        match entry_spec(section, objs.last()) {
            Some(e) => prev.push(e),
            None => prev,
        }
    }
}

/// The records under `key` at depth 1 of the input (none when it holds no
/// array).
pub open spec fn records(input: Seq<u8>, key: Seq<u8>) -> Seq<Seq<u8>> {
    match bracketed_at_depth_spec(input, key, 1, 91u8, 93u8) {
        Some(a) => array_objects(a),
        None => Seq::empty(),
    }
}

/// The sorted entries of `section` of the input.
pub open spec fn section_entries(input: Seq<u8>, section: Section, key: Seq<u8>) -> Seq<EntryView> {
    sort_by_ref(collect(section, records(input, key)))
}

proof fn lemma_insert_by_ref(s: Seq<EntryView>, x: EntryView, i: int)
    requires
        0 <= i <= s.len(),
        forall|j: int| 0 <= j < i ==> !lex_lt(x.reference, (#[trigger] s[j]).reference),
        i < s.len() ==> lex_lt(x.reference, s[i].reference),
    ensures
        insert_by_ref(s, x) == s.insert(i, x),
    decreases s.len(),
{
    if s.len() == 0 {
        assert(s.insert(i, x) =~= seq![x]);
    } else if lex_lt(x.reference, s[0].reference) {
        if i > 0 {
            assert(!lex_lt(x.reference, s[0].reference));
        }
        assert(s.insert(i, x) =~= seq![x] + s);
    } else {
        let rest = s.drop_first();
        assert forall|j: int| 0 <= j < i - 1 implies !lex_lt(x.reference, (#[trigger] rest[j]).reference) by {
            assert(rest[j] == s[j + 1]);
        }
        lemma_insert_by_ref(rest, x, i - 1);
        assert(s.insert(i, x) =~= seq![s[0]] + rest.insert(i - 1, x));
    }
}

/// Inserts `e` into the list sorted by reference, after the entries whose
/// references do not come after its own.
fn insert_by_reference(list: &mut Vec<CatalogEntry>, e: CatalogEntry)
    ensures
        entry_views(final(list)@) == insert_by_ref(entry_views(old(list)@), entry_view(e)),
{
    let ghost v0 = entry_views(list@);
    let mut i: usize = 0;
    while i < list.len() && !bytes_lt(e.reference.as_slice(), list[i].reference.as_slice())
        invariant
            i <= list@.len(),
            entry_views(list@) == v0,
            forall|j: int| 0 <= j < i ==> !lex_lt(e.reference@, (#[trigger] v0[j]).reference),
        decreases list@.len() - i,
    {
        assert(v0[i as int] == entry_view(list@[i as int]));
        i = i + 1;
    }
    proof {
        if i < list@.len() {
            assert(v0[i as int] == entry_view(list@[i as int]));
        }
        lemma_insert_by_ref(v0, entry_view(e), i as int);
    }
    let ghost ev = entry_view(e);
    list.insert(i, e);
    assert(entry_views(list@) =~= v0.insert(i as int, ev));
}

/// The sorted entries of `section` of the input.
pub fn section_list(input: &[u8], section: Section, key: &[u8]) -> (r: Vec<CatalogEntry>)
    requires
        scannable(input@),
        key@.len() > 0,
    ensures
        entry_views(r@) == section_entries(input@, section, key@),
{
    let mut list: Vec<CatalogEntry> = Vec::new();
    let arr = match array_after_key_at_depth(input, key, 1) {
        Some(a) => a,
        None => {
            assert(entry_views(list@) =~= Seq::<EntryView>::empty());
            return list;
        },
    };
    let objs = objects_in(arr);
    let ghost all = slices_view(objs@);
    let mut k: usize = 0;
    assert(all.take(0) =~= Seq::<Seq<u8>>::empty());
    assert(entry_views(list@) =~= Seq::<EntryView>::empty());
    while k < objs.len()
        invariant
            k <= objs@.len(),
            all == slices_view(objs@),
            all == records(input@, key@),
            scannable(arr@),
            forall|j: int| 0 <= j < objs@.len() ==> (#[trigger] objs@[j])@.len() <= arr@.len(),
            entry_views(list@) == sort_by_ref(collect(section, all.take(k as int))),
        decreases objs@.len() - k,
    {
        let obj = objs[k];
        assert(all[k as int] == obj@);
        assert(all.take(k + 1).drop_last() =~= all.take(k as int));
        let ghost prev = collect(section, all.take(k as int));
        assert(all.take(k + 1).last() == obj@);
        match entry_of(section, obj) {
            Some(e) => {
                proof {
                    let ev = entry_view(e);
                    assert(collect(section, all.take(k + 1)) == prev.push(ev));
                    assert(prev.push(ev).drop_last() =~= prev);
                    assert(sort_by_ref(prev.push(ev)) == insert_by_ref(sort_by_ref(prev), ev));
                }
                insert_by_reference(&mut list, e);
            },
            None => {
                assert(collect(section, all.take(k + 1)) == prev);
            },
        }
        k = k + 1;
    }
    assert(all.take(k as int) =~= all);
    list
}

/// `true` or `false`.
pub open spec fn bool_text(b: bool) -> Seq<u8> {
    if b { "true".spec_bytes() } else { "false".spec_bytes() }
}

/// One entry of a list of the catalog, as JSON.
pub open spec fn entry_json(section: Section, e: EntryView) -> Seq<u8> {
    match section {
        Section::Capabilities => "{\"reference\":\"".spec_bytes() + e.reference + "\",\"deprecated\":".spec_bytes()
            + bool_text(e.deprecated) + ",\"contract\":".spec_bytes() + e.source + ",\"test_coverage\":".spec_bytes()
            + e.coverage + "}".spec_bytes(),
        Section::Personas => "{\"reference\":\"".spec_bytes() + e.reference + "\",\"persona\":".spec_bytes()
            + e.source + "}".spec_bytes(),
        Section::Events => "{\"reference\":\"".spec_bytes() + e.reference + "\",\"deprecated\":".spec_bytes()
            + bool_text(e.deprecated) + ",\"product\":".spec_bytes() + e.source + "}".spec_bytes(),
    }
}

/// The entries of a list, as JSON, separated by commas.
pub open spec fn list_json(section: Section, s: Seq<EntryView>) -> Seq<u8>
    decreases s.len(),
{
    if s.len() == 0 {
        Seq::empty()
    } else if s.len() == 1 {
        entry_json(section, s[0])
    } else {
        list_json(section, s.drop_last()) + seq![44u8] + entry_json(section, s.last())
    }
}

/// Appends one entry as JSON.
fn write_entry(section: Section, e: &CatalogEntry, out: &mut Vec<u8>)
    ensures
        final(out)@ == old(out)@ + entry_json(section, entry_view(*e)),
{
    let ghost o0 = out@;
    append(out, "{\"reference\":\"".as_bytes());
    append(out, e.reference.as_slice());
    match section {
        Section::Capabilities => {
            append(out, "\",\"deprecated\":".as_bytes());
            if e.deprecated {
                append(out, "true".as_bytes());
            } else {
                append(out, "false".as_bytes());
            }
            append(out, ",\"contract\":".as_bytes());
            append(out, e.source.as_slice());
            append(out, ",\"test_coverage\":".as_bytes());
            append(out, e.coverage.as_slice());
        },
        Section::Personas => {
            append(out, "\",\"persona\":".as_bytes());
            append(out, e.source.as_slice());
        },
        Section::Events => {
            append(out, "\",\"deprecated\":".as_bytes());
            if e.deprecated {
                append(out, "true".as_bytes());
            } else {
                append(out, "false".as_bytes());
            }
            append(out, ",\"product\":".as_bytes());
            append(out, e.source.as_slice());
        },
    }
    append(out, "}".as_bytes());
    assert(out@ =~= o0 + entry_json(section, entry_view(*e)));
}

/// Appends the entries of a list as JSON, separated by commas.
fn write_list(section: Section, list: &Vec<CatalogEntry>, out: &mut Vec<u8>)
    ensures
        final(out)@ == old(out)@ + list_json(section, entry_views(list@)),
{
    let ghost o0 = out@;
    let ghost vs = entry_views(list@);
    let mut k: usize = 0;
    assert(out@ =~= o0 + list_json(section, vs.take(0)));
    while k < list.len()
        invariant
            k <= list@.len(),
            vs == entry_views(list@),
            out@ == o0 + list_json(section, vs.take(k as int)),
        decreases list@.len() - k,
    {
        assert(vs.take(k + 1).drop_last() =~= vs.take(k as int));
        assert(vs.take(k + 1).last() == entry_view(list@[k as int]));
        if k > 0 {
            out.push(44);
        }
        write_entry(section, &list[k], out);
        proof {
            if k == 0 {
                assert(vs.take(1)[0] == entry_view(list@[0]));
            }
            assert(out@ =~= o0 + list_json(section, vs.take(k + 1)));
        }
        k = k + 1;
    }
    assert(vs.take(k as int) =~= vs);
}


/// A byte string between double quotes.
pub open spec fn quoted(x: Seq<u8>) -> Seq<u8> {
    seq![34u8] + x + seq![34u8]
}

/// The references of a token, as a JSON array body.
pub open spec fn refs_json(refs: Seq<Seq<u8>>) -> Seq<u8>
    decreases refs.len(),
{
    if refs.len() == 0 {
        Seq::empty()
    } else if refs.len() == 1 {
        quoted(refs[0])
    } else {
        refs_json(refs.drop_last()) + seq![44u8] + quoted(refs.last())
    }
}

/// One token of the index with its references, as a JSON member.
pub open spec fn index_entry_json(e: (Vec<u8>, Vec<Vec<u8>>)) -> Seq<u8> {
    quoted(e.0@) + ":[".spec_bytes() + refs_json(views(e.1@)) + "]".spec_bytes()
}

/// The index as the body of a JSON object.
pub open spec fn index_json(ix: Seq<(Vec<u8>, Vec<Vec<u8>>)>) -> Seq<u8>
    decreases ix.len(),
{
    if ix.len() == 0 {
        Seq::empty()
    } else if ix.len() == 1 {
        index_entry_json(ix[0])
    } else {
        index_json(ix.drop_last()) + seq![44u8] + index_entry_json(ix.last())
    }
}

/// Appends the references as a JSON array body.
fn write_refs(refs: &Vec<Vec<u8>>, out: &mut Vec<u8>)
    ensures
        final(out)@ == old(out)@ + refs_json(views(refs@)),
{
    let ghost o0 = out@;
    let ghost vs = views(refs@);
    let mut k: usize = 0;
    assert(out@ =~= o0 + refs_json(vs.take(0)));
    while k < refs.len()
        invariant
            k <= refs@.len(),
            vs == views(refs@),
            out@ == o0 + refs_json(vs.take(k as int)),
        decreases refs@.len() - k,
    {
        assert(vs.take(k + 1).drop_last() =~= vs.take(k as int));
        assert(vs.take(k + 1).last() == refs@[k as int]@);
        if k > 0 {
            out.push(44);
        }
        out.push(34);
        append(out, refs[k].as_slice());
        out.push(34);
        proof {
            if k == 0 {
                assert(vs.take(1)[0] == refs@[0]@);
            }
            assert(out@ =~= o0 + refs_json(vs.take(k + 1)));
        }
        k = k + 1;
    }
    assert(vs.take(k as int) =~= vs);
}

/// Appends the index as the body of a JSON object.
fn write_index(ix: &SearchIndex, out: &mut Vec<u8>)
    ensures
        final(out)@ == old(out)@ + index_json(ix@),
{
    let ghost o0 = out@;
    let mut k: usize = 0;
    assert(out@ =~= o0 + index_json(ix@.take(0)));
    while k < ix.len()
        invariant
            k <= ix@.len(),
            out@ == o0 + index_json(ix@.take(k as int)),
        decreases ix@.len() - k,
    {
        assert(ix@.take(k + 1).drop_last() =~= ix@.take(k as int));
        assert(ix@.take(k + 1).last() == ix@[k as int]);
        let ghost before = out@;
        if k > 0 {
            out.push(44);
        }
        let ghost mid = out@;
        out.push(34);
        append(out, ix[k].0.as_slice());
        out.push(34);
        append(out, ":[".as_bytes());
        write_refs(&ix[k].1, out);
        append(out, "]".as_bytes());
        proof {
            assert(out@ =~= mid + index_entry_json(ix@[k as int]));
            if k == 0 {
                assert(ix@.take(1)[0] == ix@[0]);
            }
            assert(out@ =~= o0 + index_json(ix@.take(k + 1)));
        }
        k = k + 1;
    }
    assert(ix@.take(k as int) =~= ix@);
}

/// Whether some capability has `w` among the tokens of its search text.
pub open spec fn caps_have(caps: Seq<EntryView>, w: Seq<u8>) -> bool {
    exists|j: int| 0 <= j < caps.len() && text_tokens((#[trigger] caps[j]).text).contains(w)
}

/// Whether some capability with reference `r` has `w` among the tokens of
/// its search text.
pub open spec fn caps_list(caps: Seq<EntryView>, w: Seq<u8>, r: Seq<u8>) -> bool {
    exists|j: int| 0 <= j < caps.len() && (#[trigger] caps[j]).reference == r && text_tokens(caps[j].text).contains(w)
}

/// Whether `ix` is the search index of the capabilities `caps`: every token
/// of their search texts in byte order, each with the references of the
/// capabilities whose text holds it, in byte order without repeats.
pub open spec fn is_search_index(ix: Seq<(Vec<u8>, Vec<Vec<u8>>)>, caps: Seq<EntryView>) -> bool {
    &&& index_wf(ix)
    &&& forall|w: Seq<u8>| #[trigger] index_keys(ix).contains(w) <==> caps_have(caps, w)
    &&& forall|w: Seq<u8>, r: Seq<u8>| #[trigger] lists(ix, w, r) <==> caps_list(caps, w, r)
}

/// The capabilities of the input, sorted.
pub open spec fn catalog_capabilities(input: Seq<u8>) -> Seq<EntryView> {
    section_entries(input, Section::Capabilities, "\"capabilities\"".spec_bytes())
}

/// The catalog of the input with the search index `ix`, as JSON.
pub open spec fn catalog_json(input: Seq<u8>, ix: Seq<(Vec<u8>, Vec<Vec<u8>>)>) -> Seq<u8> {
    "{\"capabilities\":[".spec_bytes() + list_json(Section::Capabilities, catalog_capabilities(input))
        + "],\"personas\":[".spec_bytes() + list_json(
        Section::Personas,
        section_entries(input, Section::Personas, "\"personas\"".spec_bytes()),
    ) + "],\"events\":[".spec_bytes() + list_json(
        Section::Events,
        section_entries(input, Section::Events, "\"events\"".spec_bytes()),
    ) + "],\"search_index\":{".spec_bytes() + index_json(ix) + "}}".spec_bytes()
}

/// Builds the catalog of the request `input` into `out` (all of it, or
/// nothing when it does not fit): the capabilities, personas and events,
/// each sorted by reference and carrying its whole source object, and the
/// search index of the capabilities. Returns the number of bytes written.
pub fn build_catalog(input: &[u8], out: &mut [u8]) -> (r: usize)
    requires
        scannable(input@),
    ensures
        exists|ix: Seq<(Vec<u8>, Vec<Vec<u8>>)>|
            is_search_index(ix, catalog_capabilities(input@)) && #[trigger] holds_greedy(
                final(out)@,
                r as int,
                seq![catalog_json(input@, ix)],
            ),
        final(out)@.len() == old(out)@.len(),
{
    proof {
        lemma_catalog_keys();
    }
    let caps = section_list(input, Section::Capabilities, "\"capabilities\"".as_bytes());
    let personas = section_list(input, Section::Personas, "\"personas\"".as_bytes());
    let events = section_list(input, Section::Events, "\"events\"".as_bytes());
    let ghost cv = entry_views(caps@);
    let mut pairs: Vec<(Vec<u8>, Vec<u8>)> = Vec::new();
    let mut k: usize = 0;
    while k < caps.len()
        invariant
            k <= caps@.len(),
            cv == entry_views(caps@),
            pairs@.len() == k,
            forall|j: int| 0 <= j < k ==> (#[trigger] pairs@[j]).0@ == cv[j].reference && pairs@[j].1@ == cv[j].text,
        decreases caps@.len() - k,
    {
        pairs.push((to_vec(caps[k].reference.as_slice()), to_vec(caps[k].text.as_slice())));
        k = k + 1;
    }
    let ix = build_search_index(&pairs);
    proof {
        assert forall|w: Seq<u8>| #[trigger] index_keys(ix@).contains(w) <==> caps_have(cv, w) by {
            if some_text_has(pairs@, w) {
                let j = choose|j: int| 0 <= j < pairs@.len() && text_tokens((#[trigger] pairs@[j]).1@).contains(w);
                assert(text_tokens(cv[j].text).contains(w));
            }
            if caps_have(cv, w) {
                let j = choose|j: int| 0 <= j < cv.len() && text_tokens((#[trigger] cv[j]).text).contains(w);
                assert(text_tokens(pairs@[j].1@).contains(w));
            }
        }
        assert forall|w: Seq<u8>, r: Seq<u8>| #[trigger] lists(ix@, w, r) <==> caps_list(cv, w, r) by {
            if some_entry_lists(pairs@, w, r) {
                let j = choose|j: int|
                    0 <= j < pairs@.len() && (#[trigger] pairs@[j]).0@ == r && text_tokens(pairs@[j].1@).contains(w);
                assert(cv[j].reference == r && text_tokens(cv[j].text).contains(w));
            }
            if caps_list(cv, w, r) {
                let j = choose|j: int| 0 <= j < cv.len() && (#[trigger] cv[j]).reference == r && text_tokens(cv[j].text).contains(w);
                assert(pairs@[j].0@ == r && text_tokens(pairs@[j].1@).contains(w));
            }
        }
    }
    let mut json: Vec<u8> = Vec::new();
    append(&mut json, "{\"capabilities\":[".as_bytes());
    write_list(Section::Capabilities, &caps, &mut json);
    append(&mut json, "],\"personas\":[".as_bytes());
    write_list(Section::Personas, &personas, &mut json);
    append(&mut json, "],\"events\":[".as_bytes());
    write_list(Section::Events, &events, &mut json);
    append(&mut json, "],\"search_index\":{".as_bytes());
    write_index(&ix, &mut json);
    append(&mut json, "}}".as_bytes());
    assert(json@ =~= catalog_json(input@, ix@));
    proof {
        lemma_holds_greedy_start(out@);
    }
    let r = copy_chunk(out, 0, json.as_slice(), Ghost(Seq::empty()));
    assert(Seq::<Seq<u8>>::empty().push(json@) =~= seq![catalog_json(input@, ix@)]);
    assert(is_search_index(ix@, catalog_capabilities(input@)));
    r
}

/// Entries in order of reference: no entry's reference comes before that
/// of an earlier entry.
pub open spec fn sorted_by_ref(s: Seq<EntryView>) -> bool {
    forall|i: int, j: int| 0 <= i < j < s.len() ==> !lex_lt(#[trigger] s[j].reference, #[trigger] s[i].reference)
}

proof fn lemma_not_before_transitive(a: Seq<u8>, b: Seq<u8>, c: Seq<u8>)
    requires
        !lex_lt(b, a),
        !lex_lt(c, b),
    ensures
        !lex_lt(c, a),
{
    crate::catalog::lemma_lex_total(a, b);
    crate::catalog::lemma_lex_total(b, c);
    crate::catalog::lemma_lex_total(a, c);
    if lex_lt(c, a) {
        if a != b && b != c {
            crate::catalog::lemma_lex_transitive(a, b, c);
        }
    }
}

/// How many times `e` stands in `s`.
pub open spec fn count_in(s: Seq<EntryView>, e: EntryView) -> nat
    decreases s.len(),
{
    if s.len() == 0 {
        0
    } else {
        (if s[0] == e { 1nat } else { 0nat }) + count_in(s.drop_first(), e)
    }
}

proof fn lemma_count_push(s: Seq<EntryView>, x: EntryView, e: EntryView)
    ensures
        count_in(s.push(x), e) == count_in(s, e) + (if x == e { 1nat } else { 0nat }),
    decreases s.len(),
{
    if s.len() > 0 {
        assert(s.push(x).drop_first() =~= s.drop_first().push(x));
        assert(s.push(x)[0] == s[0]);
        lemma_count_push(s.drop_first(), x, e);
    } else {
        assert(s.push(x).drop_first() =~= Seq::<EntryView>::empty());
        assert(s.push(x)[0] == x);
        assert(count_in(Seq::<EntryView>::empty(), e) == 0);
    }
}

proof fn lemma_insert_lower_bound(s: Seq<EntryView>, x: EntryView, a: Seq<u8>)
    requires
        forall|k: int| 0 <= k < s.len() ==> !lex_lt(#[trigger] s[k].reference, a),
        !lex_lt(x.reference, a),
    ensures
        forall|k: int| 0 <= k < insert_by_ref(s, x).len() ==> !lex_lt(#[trigger] insert_by_ref(s, x)[k].reference, a),
        insert_by_ref(s, x).len() == s.len() + 1,
    decreases s.len(),
{
    if s.len() > 0 && !lex_lt(x.reference, s[0].reference) {
        let rest = s.drop_first();
        assert forall|k: int| 0 <= k < rest.len() implies !lex_lt(#[trigger] rest[k].reference, a) by {
            assert(rest[k] == s[k + 1]);
        }
        lemma_insert_lower_bound(rest, x, a);
        let r = insert_by_ref(s, x);
        assert forall|k: int| 0 <= k < r.len() implies !lex_lt(#[trigger] r[k].reference, a) by {
            if k > 0 {
                assert(r[k] == insert_by_ref(rest, x)[k - 1]);
            }
        }
    } else if s.len() > 0 {
        let r = insert_by_ref(s, x);
        assert forall|k: int| 0 <= k < r.len() implies !lex_lt(#[trigger] r[k].reference, a) by {
            if k > 0 {
                assert(r[k] == s[k - 1]);
            }
        }
    } else {
        assert(insert_by_ref(s, x)[0] == x);
    }
}

proof fn lemma_insert_by_ref_sorted(s: Seq<EntryView>, x: EntryView)
    requires
        sorted_by_ref(s),
    ensures
        sorted_by_ref(insert_by_ref(s, x)),
        forall|e: EntryView| #[trigger] count_in(insert_by_ref(s, x), e) == count_in(s, e) + (if x == e { 1nat } else { 0nat }),
    decreases s.len(),
{
    let r = insert_by_ref(s, x);
    if s.len() == 0 {
        assert forall|e: EntryView| #[trigger] count_in(r, e) == count_in(s, e) + (if x == e { 1nat } else { 0nat }) by {
            assert(r.drop_first() =~= Seq::<EntryView>::empty());
            assert(r[0] == x);
            assert(count_in(Seq::<EntryView>::empty(), e) == 0);
        }
    } else if lex_lt(x.reference, s[0].reference) {
        assert forall|i: int, j: int| 0 <= i < j < r.len() implies !lex_lt(#[trigger] r[j].reference, #[trigger] r[i].reference) by {
            if i == 0 {
                assert(r[j] == s[j - 1]);
                crate::catalog::lemma_lex_total(x.reference, s[0].reference);
                if j > 1 {
                    if lex_lt(s[j - 1].reference, x.reference) {
                        crate::catalog::lemma_lex_transitive(s[j - 1].reference, x.reference, s[0].reference);
                    }
                }
            } else {
                assert(r[i] == s[i - 1] && r[j] == s[j - 1]);
            }
        }
        assert(r.drop_first() =~= s);
        assert forall|e: EntryView| #[trigger] count_in(r, e) == count_in(s, e) + (if x == e { 1nat } else { 0nat }) by {
            assert(r[0] == x);
        }
    } else {
        let rest = s.drop_first();
        assert(sorted_by_ref(rest)) by {
            assert forall|i: int, j: int| 0 <= i < j < rest.len() implies !lex_lt(#[trigger] rest[j].reference, #[trigger] rest[i].reference) by {
                assert(rest[i] == s[i + 1] && rest[j] == s[j + 1]);
            }
        }
        lemma_insert_by_ref_sorted(rest, x);
        let ins = insert_by_ref(rest, x);
        assert forall|k: int| 0 <= k < rest.len() implies !lex_lt(#[trigger] rest[k].reference, s[0].reference) by {
            assert(rest[k] == s[k + 1]);
        }
        lemma_insert_lower_bound(rest, x, s[0].reference);
        assert forall|i: int, j: int| 0 <= i < j < r.len() implies !lex_lt(#[trigger] r[j].reference, #[trigger] r[i].reference) by {
            if i == 0 {
                assert(r[j] == ins[j - 1]);
            } else {
                assert(r[i] == ins[i - 1] && r[j] == ins[j - 1]);
            }
        }
        assert(r.drop_first() =~= ins);
        assert forall|e: EntryView| #[trigger] count_in(r, e) == count_in(s, e) + (if x == e { 1nat } else { 0nat }) by {
            assert(r[0] == s[0]);
            assert(count_in(ins, e) == count_in(rest, e) + (if x == e { 1nat } else { 0nat }));
        }
    }
}

/// A sorted section holds the same entries as the records it was read
/// from, each as many times, in order of reference.
pub proof fn lemma_sort_by_ref(s: Seq<EntryView>)
    ensures
        sorted_by_ref(sort_by_ref(s)),
        forall|e: EntryView| #[trigger] count_in(sort_by_ref(s), e) == count_in(s, e),
    decreases s.len(),
{
    if s.len() > 0 {
        lemma_sort_by_ref(s.drop_last());
        lemma_insert_by_ref_sorted(sort_by_ref(s.drop_last()), s.last());
        assert(s =~= s.drop_last().push(s.last()));
        assert forall|e: EntryView| #[trigger] count_in(sort_by_ref(s), e) == count_in(s, e) by {
            lemma_count_push(s.drop_last(), s.last(), e);
        }
    }
}

/// Each list of the catalog is in order of reference and holds exactly the
/// entries of the records of its section that have one, each as many times.
pub proof fn lemma_sections_sorted(input: Seq<u8>, section: Section, key: Seq<u8>)
    ensures
        sorted_by_ref(section_entries(input, section, key)),
        forall|e: EntryView| #[trigger] count_in(section_entries(input, section, key), e) == count_in(
            collect(section, records(input, key)),
            e,
        ),
{
    lemma_sort_by_ref(collect(section, records(input, key)));
}

} // verus!
