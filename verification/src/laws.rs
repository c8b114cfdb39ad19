use vstd::prelude::*;
use crate::digest::spec_fingerprint;
use crate::members::{lemma_record_order_well, record_order, spec_output};
use crate::model::{Backend, MemberRecord, ParsedObject, Section, SectionKind, Symbol};
use crate::sorting::lemma_stable_sort_unique_perm;
use crate::text::lemma_lex_le_antisym;
use crate::tokens::{
    group_tokens, groups_tokens, object_tokens, section_tokens, sections_tokens, symbols_tokens,
};

verus! {

proof fn lemma_sections_tokens_pointwise(ss1: Seq<Section>, ss2: Seq<Section>)
    requires
        ss1.len() == ss2.len(),
        forall|t: int|
            0 <= t < ss1.len() ==> section_tokens(#[trigger] ss1[t]) == section_tokens(ss2[t]),
    ensures
        sections_tokens(ss1) == sections_tokens(ss2),
    decreases ss1.len(),
{
    if ss1.len() != 0 {
        assert(forall|t: int|
            0 <= t < ss1.drop_last().len() ==> #[trigger] ss1.drop_last()[t] == ss1[t]
                && ss2.drop_last()[t] == ss2[t]);
        lemma_sections_tokens_pointwise(ss1.drop_last(), ss2.drop_last());
        assert(section_tokens(ss1.last()) == section_tokens(ss2.last()));
    }
}

proof fn lemma_groups_tokens_pointwise(
    gs1: Seq<Vec<crate::model::Relocation>>,
    gs2: Seq<Vec<crate::model::Relocation>>,
    sym1: Seq<Symbol>,
    sym2: Seq<Symbol>,
)
    requires
        gs1.len() == gs2.len(),
        forall|t: int|
            0 <= t < gs1.len() ==> group_tokens((#[trigger] gs1[t])@, sym1) == group_tokens(
                gs2[t]@,
                sym2,
            ),
    ensures
        groups_tokens(gs1, sym1) == groups_tokens(gs2, sym2),
    decreases gs1.len(),
{
    if gs1.len() != 0 {
        assert(forall|t: int|
            0 <= t < gs1.drop_last().len() ==> #[trigger] gs1.drop_last()[t] == gs1[t]
                && gs2.drop_last()[t] == gs2[t]);
        lemma_groups_tokens_pointwise(gs1.drop_last(), gs2.drop_last(), sym1, sym2);
        assert(group_tokens(gs1.last()@, sym1) == group_tokens(gs2.last()@, sym2));
    }
}

/// Determinism over on-disk order: the run's output depends only on
/// which members are present, never on the order they were supplied
/// in, as long as member names are distinct.
pub proof fn lemma_output_reorder_invariant(
    r1: Seq<MemberRecord>,
    r2: Seq<MemberRecord>,
    backend: Backend,
)
    requires
        r1.to_multiset() == r2.to_multiset(),
        forall|a: int, b: int|
            0 <= a < r1.len() && 0 <= b < r1.len() && a != b ==> (#[trigger] r1[a]).name@ != (
            #[trigger] r1[b]).name@,
    ensures
        spec_output(r1, backend) == spec_output(r2, backend),
{
    lemma_record_order_well();
    assert(r1.no_duplicates()) by {
        assert forall|i: int, j: int|
            0 <= i < r1.len() && 0 <= j < r1.len() && i != j implies r1[i] != r1[j] by {
            assert(r1[i].name@ != r1[j].name@);
        }
    }
    assert forall|a: int, b: int|
        0 <= a < r1.len() && 0 <= b < r1.len() && a != b implies !(record_order()(
        #[trigger] r1[a],
        #[trigger] r1[b],
    ) && record_order()(r1[b], r1[a])) by {
        if record_order()(r1[a], r1[b]) && record_order()(r1[b], r1[a]) {
            lemma_lex_le_antisym(r1[a].name@, r1[b].name@);
        }
    }
    lemma_stable_sort_unique_perm(r1, r2, record_order());
}

/// Zero-fill sections contribute only their declared size: whatever
/// backing bytes a zero-fill section carries never reach the
/// fingerprint.
pub proof fn lemma_zero_fill_backing_irrelevant(
    o1: ParsedObject,
    o2: ParsedObject,
    si: int,
    backend: Backend,
)
    requires
        o1.symbols == o2.symbols,
        o1.reloc_groups == o2.reloc_groups,
        o1.sections@.len() == o2.sections@.len(),
        0 <= si < o1.sections@.len(),
        forall|t: int|
            0 <= t < o1.sections@.len() && t != si ==> #[trigger] o1.sections@[t]
                == o2.sections@[t],
        o1.sections@[si].kind == SectionKind::ZeroFill,
        o2.sections@[si].kind == SectionKind::ZeroFill,
        o1.sections@[si].name == o2.sections@[si].name,
        o1.sections@[si].size == o2.sections@[si].size,
    ensures
        spec_fingerprint(o1, backend) == spec_fingerprint(o2, backend),
{
    assert forall|t: int|
        0 <= t < o1.sections@.len() implies section_tokens(#[trigger] o1.sections@[t])
        == section_tokens(o2.sections@[t]) by {
        if t == si {
            assert(o1.sections@[t].name@ == o2.sections@[t].name@);
        }
    }
    lemma_sections_tokens_pointwise(o1.sections@, o2.sections@);
    assert(object_tokens(o1) == object_tokens(o2));
}

/// Sections outside the allow-list are ignored entirely: replacing such
/// a section with any other non-allow-listed section leaves the
/// fingerprint unchanged, whatever its bytes, kind or size.
pub proof fn lemma_ignored_section_irrelevant(
    o1: ParsedObject,
    o2: ParsedObject,
    si: int,
    backend: Backend,
)
    requires
        o1.symbols == o2.symbols,
        o1.reloc_groups == o2.reloc_groups,
        o1.sections@.len() == o2.sections@.len(),
        0 <= si < o1.sections@.len(),
        forall|t: int|
            0 <= t < o1.sections@.len() && t != si ==> #[trigger] o1.sections@[t]
                == o2.sections@[t],
        !crate::tokens::allowed_name(o1.sections@[si].name@),
        !crate::tokens::allowed_name(o2.sections@[si].name@),
    ensures
        spec_fingerprint(o1, backend) == spec_fingerprint(o2, backend),
{
    assert forall|t: int|
        0 <= t < o1.sections@.len() implies section_tokens(#[trigger] o1.sections@[t])
        == section_tokens(o2.sections@[t]) by {}
    lemma_sections_tokens_pointwise(o1.sections@, o2.sections@);
    assert(object_tokens(o1) == object_tokens(o2));
}

proof fn lemma_group_tokens_symbols_push(
    g: Seq<crate::model::Relocation>,
    sym: Seq<Symbol>,
    s: Symbol,
)
    requires
        crate::model::wf_group(g, sym.len() as int),
    ensures
        group_tokens(g, sym.push(s)) == group_tokens(g, sym),
{
    let sorted = crate::sorting::stable_sort(g, crate::tokens::reloc_order());
    crate::sorting::lemma_stable_sort_contains(g, crate::tokens::reloc_order());
    assert forall|k: int|
        0 <= k < sorted.len() implies crate::tokens::reloc_token(#[trigger] sorted[k], sym.push(s))
        == crate::tokens::reloc_token(sorted[k], sym) by {
        assert(sorted.contains(sorted[k]));
        assert(g.contains(sorted[k]));
        let j = choose|j: int| 0 <= j < g.len() && g[j] == sorted[k];
        assert((g[j]).symbol < sym.len());
        assert(sym.push(s)[sorted[k].symbol as int] == sym[sorted[k].symbol as int]);
    }
    if !(exists|i: int| 0 <= i < sorted.len() && (#[trigger] sorted[i]).addend is Some) {
        assert(sorted.map_values(crate::tokens::reloc_token_fn(sym.push(s))) =~= sorted.map_values(
            crate::tokens::reloc_token_fn(sym),
        ));
    }
}

proof fn lemma_groups_tokens_symbols_push(
    gs: Seq<Vec<crate::model::Relocation>>,
    sym: Seq<Symbol>,
    s: Symbol,
)
    requires
        forall|t: int|
            0 <= t < gs.len() ==> crate::model::wf_group((#[trigger] gs[t])@, sym.len() as int),
    ensures
        groups_tokens(gs, sym.push(s)) == groups_tokens(gs, sym),
    decreases gs.len(),
{
    if gs.len() != 0 {
        assert(forall|t: int|
            0 <= t < gs.drop_last().len() ==> #[trigger] gs.drop_last()[t] == gs[t]);
        lemma_groups_tokens_symbols_push(gs.drop_last(), sym, s);
        lemma_group_tokens_symbols_push(gs.last()@, sym, s);
    }
}

/// Imported (undefined external) symbols never reach the fingerprint:
/// appending one to the symbol table leaves the digest unchanged.
pub proof fn lemma_imported_symbol_irrelevant(
    o1: ParsedObject,
    o2: ParsedObject,
    s: Symbol,
    backend: Backend,
)
    requires
        crate::model::wf_object(o1),
        o2.sections == o1.sections,
        o2.reloc_groups == o1.reloc_groups,
        o2.symbols@ == o1.symbols@.push(s),
        s.imported,
    ensures
        spec_fingerprint(o1, backend) == spec_fingerprint(o2, backend),
{
    assert(forall|t: int|
        0 <= t < o1.reloc_groups@.len() ==> crate::model::wf_group(
            (#[trigger] o1.reloc_groups@[t])@,
            o1.symbols@.len() as int,
        ));
    lemma_groups_tokens_symbols_push(o1.reloc_groups@, o1.symbols@, s);
    assert(groups_tokens(o2.reloc_groups@, o2.symbols@) == groups_tokens(
        o1.reloc_groups@,
        o1.symbols@,
    ));
    crate::tokens::lemma_symbol_order_well();
    let sorted1 = crate::sorting::stable_sort(o1.symbols@, crate::tokens::symbol_order());
    assert(o2.symbols@.drop_last() =~= o1.symbols@);
    assert(o2.symbols@.last() == s);
    assert(crate::sorting::stable_sort(o2.symbols@, crate::tokens::symbol_order())
        == crate::sorting::stable_insert(sorted1, s, crate::tokens::symbol_order()));
    assert(!crate::tokens::defined_pred()(s));
    crate::sorting::lemma_filter_stable_insert_skip(
        sorted1,
        s,
        crate::tokens::symbol_order(),
        crate::tokens::defined_pred(),
    );
    assert(symbols_tokens(o2.symbols@) == symbols_tokens(o1.symbols@));
    assert(object_tokens(o2) == object_tokens(o1));
}

/// Permuting one section's relocation list leaves the fingerprint
/// unchanged, as long as the list's target offsets are distinct.
pub proof fn lemma_reloc_order_irrelevant(
    o1: ParsedObject,
    o2: ParsedObject,
    gi: int,
    backend: Backend,
)
    requires
        o1.sections == o2.sections,
        o1.symbols == o2.symbols,
        o1.reloc_groups@.len() == o2.reloc_groups@.len(),
        0 <= gi < o1.reloc_groups@.len(),
        forall|t: int|
            0 <= t < o1.reloc_groups@.len() && t != gi ==> #[trigger] o1.reloc_groups@[t]
                == o2.reloc_groups@[t],
        (o1.reloc_groups@[gi])@.to_multiset() == (o2.reloc_groups@[gi])@.to_multiset(),
        forall|a: int, b: int|
            0 <= a < (o1.reloc_groups@[gi])@.len() && 0 <= b < (o1.reloc_groups@[gi])@.len() && a
                != b ==> ((#[trigger] (o1.reloc_groups@[gi])@[a]).offset != (
            #[trigger] (o1.reloc_groups@[gi])@[b]).offset),
    ensures
        spec_fingerprint(o1, backend) == spec_fingerprint(o2, backend),
{
    crate::tokens::lemma_reloc_order_well();
    let g1 = (o1.reloc_groups@[gi])@;
    let g2 = (o2.reloc_groups@[gi])@;
    assert(g1.no_duplicates()) by {
        assert forall|i: int, j: int|
            0 <= i < g1.len() && 0 <= j < g1.len() && i != j implies g1[i] != g1[j] by {
            assert(g1[i].offset != g1[j].offset);
        }
    }
    assert forall|a: int, b: int|
        0 <= a < g1.len() && 0 <= b < g1.len() && a != b implies !(crate::tokens::reloc_order()(
        #[trigger] g1[a],
        #[trigger] g1[b],
    ) && crate::tokens::reloc_order()(g1[b], g1[a])) by {
        assert(g1[a].offset != g1[b].offset);
    }
    lemma_stable_sort_unique_perm(g1, g2, crate::tokens::reloc_order());
    assert(group_tokens(g1, o1.symbols@) == group_tokens(g2, o2.symbols@));
    assert forall|t: int|
        0 <= t < o1.reloc_groups@.len() implies group_tokens(
        (#[trigger] o1.reloc_groups@[t])@,
        o1.symbols@,
    ) == group_tokens((o2.reloc_groups@[t])@, o2.symbols@) by {}
    lemma_groups_tokens_pointwise(o1.reloc_groups@, o2.reloc_groups@, o1.symbols@, o2.symbols@);
    assert(object_tokens(o1) == object_tokens(o2));
}

proof fn lemma_sections_tokens_all_ok(ss: Seq<Section>)
    requires
        forall|t: int| 0 <= t < ss.len() ==> section_tokens(#[trigger] ss[t]) is Ok,
    ensures
        sections_tokens(ss) is Ok,
    decreases ss.len(),
{
    if ss.len() != 0 {
        assert(forall|t: int|
            0 <= t < ss.drop_last().len() ==> #[trigger] ss.drop_last()[t] == ss[t]);
        lemma_sections_tokens_all_ok(ss.drop_last());
    }
}

proof fn lemma_sections_tokens_differ(ss1: Seq<Section>, ss2: Seq<Section>, si: int)
    requires
        ss1.len() == ss2.len(),
        0 <= si < ss1.len(),
        forall|t: int| 0 <= t < ss1.len() && t != si ==> #[trigger] ss1[t] == ss2[t],
        forall|t: int| 0 <= t < ss1.len() ==> section_tokens(#[trigger] ss1[t]) is Ok,
        section_tokens(ss2[si]) is Ok,
        section_tokens(ss1[si])->Ok_0.len() == section_tokens(ss2[si])->Ok_0.len(),
        section_tokens(ss1[si])->Ok_0 != section_tokens(ss2[si])->Ok_0,
    ensures
        sections_tokens(ss1) is Ok,
        sections_tokens(ss2) is Ok,
        sections_tokens(ss1)->Ok_0.len() == sections_tokens(ss2)->Ok_0.len(),
        sections_tokens(ss1)->Ok_0 != sections_tokens(ss2)->Ok_0,
    decreases ss1.len(),
{
    assert forall|t: int| 0 <= t < ss2.len() implies section_tokens(#[trigger] ss2[t]) is Ok by {
        if t != si {
            assert(ss1[t] == ss2[t]);
        }
    }
    lemma_sections_tokens_all_ok(ss1);
    lemma_sections_tokens_all_ok(ss2);
    let t1 = section_tokens(ss1[si])->Ok_0;
    let t2 = section_tokens(ss2[si])->Ok_0;
    if si == ss1.len() - 1 {
        assert(ss1.drop_last() =~= ss2.drop_last());
        let p = sections_tokens(ss1.drop_last())->Ok_0;
        let k = choose|k: int| 0 <= k < t1.len() && t1[k] != t2[k];
        assert(0 <= k < t1.len() && t1[k] != t2[k]) by {
            if forall|k: int| 0 <= k < t1.len() ==> #[trigger] t1[k] == t2[k] {
                assert(t1 =~= t2);
            }
        }
        assert((p + t1)[p.len() + k] != (p + t2)[p.len() + k]);
    } else {
        assert(forall|t: int|
            0 <= t < ss1.drop_last().len() && t != si ==> #[trigger] ss1.drop_last()[t]
                == ss2.drop_last()[t]);
        assert(forall|t: int|
            0 <= t < ss1.drop_last().len() ==> section_tokens(#[trigger] ss1.drop_last()[t])
                is Ok);
        assert(ss1.drop_last()[si] == ss1[si]);
        assert(ss2.drop_last()[si] == ss2[si]);
        lemma_sections_tokens_differ(ss1.drop_last(), ss2.drop_last(), si);
        let p1 = sections_tokens(ss1.drop_last())->Ok_0;
        let p2 = sections_tokens(ss2.drop_last())->Ok_0;
        let t = section_tokens(ss1.last())->Ok_0;
        assert(section_tokens(ss2.last()) == section_tokens(ss1.last()));
        let k = choose|k: int| 0 <= k < p1.len() && p1[k] != p2[k];
        assert(0 <= k < p1.len() && p1[k] != p2[k]) by {
            if forall|k: int| 0 <= k < p1.len() ==> #[trigger] p1[k] == p2[k] {
                assert(p1 =~= p2);
            }
        }
        assert((p1 + t)[k] != (p2 + t)[k]);
    }
}

/// Flipping a byte in an allow-listed content section changes the
/// canonical token stream (the digest over it is then expected to
/// change; only a hash collision could hide it).
pub proof fn lemma_content_sensitive(o1: ParsedObject, o2: ParsedObject, si: int)
    requires
        o1.symbols == o2.symbols,
        o1.reloc_groups == o2.reloc_groups,
        o1.sections@.len() == o2.sections@.len(),
        0 <= si < o1.sections@.len(),
        forall|t: int|
            0 <= t < o1.sections@.len() && t != si ==> #[trigger] o1.sections@[t]
                == o2.sections@[t],
        o1.sections@[si].name == o2.sections@[si].name,
        crate::tokens::allowed_name(o1.sections@[si].name@),
        o1.sections@[si].kind == SectionKind::Content,
        o2.sections@[si].kind == SectionKind::Content,
        o1.sections@[si].bytes@ != o2.sections@[si].bytes@,
        forall|t: int| 0 <= t < o1.sections@.len() ==> section_tokens(#[trigger] o1.sections@[t]) is Ok,
    ensures
        object_tokens(o1) is Ok ==> object_tokens(o2) is Ok && object_tokens(o1) != object_tokens(
            o2,
        ),
{
    lemma_sections_tokens_differ(o1.sections@, o2.sections@, si);
    if object_tokens(o1) is Ok {
        assert(groups_tokens(o2.reloc_groups@, o2.symbols@) == groups_tokens(
            o1.reloc_groups@,
            o1.symbols@,
        ));
        let a1 = sections_tokens(o1.sections@)->Ok_0;
        let a2 = sections_tokens(o2.sections@)->Ok_0;
        let b = groups_tokens(o1.reloc_groups@, o1.symbols@)->Ok_0;
        let c = symbols_tokens(o1.symbols@);
        let k = choose|k: int| 0 <= k < a1.len() && a1[k] != a2[k];
        assert(0 <= k < a1.len() && a1[k] != a2[k]) by {
            if forall|k: int| 0 <= k < a1.len() ==> #[trigger] a1[k] == a2[k] {
                assert(a1 =~= a2);
            }
        }
        assert((a1 + b + c)[k] != (a2 + b + c)[k]);
    }
}

/// Two zero-fill sections of different declared size give different
/// canonical token streams, whatever their backing bytes.
pub proof fn lemma_zero_fill_size_sensitive(o1: ParsedObject, o2: ParsedObject, si: int)
    requires
        o1.symbols == o2.symbols,
        o1.reloc_groups == o2.reloc_groups,
        o1.sections@.len() == o2.sections@.len(),
        0 <= si < o1.sections@.len(),
        forall|t: int|
            0 <= t < o1.sections@.len() && t != si ==> #[trigger] o1.sections@[t]
                == o2.sections@[t],
        o1.sections@[si].name == o2.sections@[si].name,
        crate::tokens::allowed_name(o1.sections@[si].name@),
        o1.sections@[si].kind == SectionKind::ZeroFill,
        o2.sections@[si].kind == SectionKind::ZeroFill,
        o1.sections@[si].size != o2.sections@[si].size,
        forall|t: int| 0 <= t < o1.sections@.len() ==> section_tokens(#[trigger] o1.sections@[t]) is Ok,
    ensures
        object_tokens(o1) is Ok ==> object_tokens(o2) is Ok && object_tokens(o1) != object_tokens(
            o2,
        ),
{
    let s1 = o1.sections@[si];
    let s2 = o2.sections@[si];
    assert(section_tokens(s1)->Ok_0 != section_tokens(s2)->Ok_0) by {
        if section_tokens(s1)->Ok_0 == section_tokens(s2)->Ok_0 {
            assert(section_tokens(s1)->Ok_0[0] == section_tokens(s2)->Ok_0[0]);
            assert("BSS: "@ + crate::text::dec_chars(s1.size as int) == "BSS: "@
                + crate::text::dec_chars(s2.size as int));
            crate::text::lemma_concat_left_cancel(
                "BSS: "@,
                crate::text::dec_chars(s1.size as int),
                crate::text::dec_chars(s2.size as int),
            );
            crate::text::lemma_dec_chars_injective(s1.size as int, s2.size as int);
        }
    }
    lemma_sections_tokens_differ(o1.sections@, o2.sections@, si);
    if object_tokens(o1) is Ok {
        assert(groups_tokens(o2.reloc_groups@, o2.symbols@) == groups_tokens(
            o1.reloc_groups@,
            o1.symbols@,
        ));
        let a1 = sections_tokens(o1.sections@)->Ok_0;
        let a2 = sections_tokens(o2.sections@)->Ok_0;
        let b = groups_tokens(o1.reloc_groups@, o1.symbols@)->Ok_0;
        let c = symbols_tokens(o1.symbols@);
        let k = choose|k: int| 0 <= k < a1.len() && a1[k] != a2[k];
        assert(0 <= k < a1.len() && a1[k] != a2[k]) by {
            if forall|k: int| 0 <= k < a1.len() ==> #[trigger] a1[k] == a2[k] {
                assert(a1 =~= a2);
            }
        }
        assert((a1 + b + c)[k] != (a2 + b + c)[k]);
    }
}

/// A relocation re-pointed at where its symbol moved under `p`.
pub open spec fn remap_fn(p: Seq<usize>) -> spec_fn(crate::model::Relocation) -> crate::model::Relocation {
    |r: crate::model::Relocation|
        (crate::model::Relocation { symbol: p[r.symbol as int], ..r })
}

/// Permuting the symbol table's rows, with every relocation following
/// its symbol to its new position, leaves the fingerprint unchanged,
/// as long as symbol names are distinct.
pub proof fn lemma_symbol_table_order_irrelevant(
    o1: ParsedObject,
    o2: ParsedObject,
    p: Seq<usize>,
    backend: Backend,
)
    requires
        crate::model::wf_object(o1),
        o1.sections == o2.sections,
        p.len() == o1.symbols@.len(),
        o2.symbols@.len() == o1.symbols@.len(),
        forall|t: int| 0 <= t < p.len() ==> (#[trigger] p[t]) < p.len(),
        forall|t: int|
            0 <= t < p.len() ==> o2.symbols@[#[trigger] p[t] as int] == o1.symbols@[t],
        o1.symbols@.to_multiset() == o2.symbols@.to_multiset(),
        forall|a: int, b: int|
            0 <= a < o1.symbols@.len() && 0 <= b < o1.symbols@.len() && a != b ==> (
            #[trigger] o1.symbols@[a]).name@ != (#[trigger] o1.symbols@[b]).name@,
        o1.reloc_groups@.len() == o2.reloc_groups@.len(),
        forall|t: int|
            0 <= t < o1.reloc_groups@.len() ==> (#[trigger] o2.reloc_groups@[t])@ == (
            o1.reloc_groups@[t])@.map_values(remap_fn(p)),
    ensures
        spec_fingerprint(o1, backend) == spec_fingerprint(o2, backend),
{
    let sym1 = o1.symbols@;
    let sym2 = o2.symbols@;
    let n = sym1.len() as int;
    crate::tokens::lemma_symbol_order_well();
    assert(sym1.no_duplicates()) by {
        assert forall|i: int, j: int|
            0 <= i < sym1.len() && 0 <= j < sym1.len() && i != j implies sym1[i] != sym1[j] by {
            assert(sym1[i].name@ != sym1[j].name@);
        }
    }
    assert forall|a: int, b: int|
        0 <= a < sym1.len() && 0 <= b < sym1.len() && a != b implies !(
    crate::tokens::symbol_order()(#[trigger] sym1[a], #[trigger] sym1[b])
        && crate::tokens::symbol_order()(sym1[b], sym1[a])) by {
        if crate::tokens::symbol_order()(sym1[a], sym1[b]) && crate::tokens::symbol_order()(
            sym1[b],
            sym1[a],
        ) {
            lemma_lex_le_antisym(sym1[a].name@, sym1[b].name@);
        }
    }
    lemma_stable_sort_unique_perm(sym1, sym2, crate::tokens::symbol_order());
    assert(symbols_tokens(sym2) == symbols_tokens(sym1));
    let phi = remap_fn(p);
    assert(forall|a: crate::model::Relocation, b: crate::model::Relocation|
        #[trigger] crate::tokens::reloc_order()(phi(a), phi(b)) == crate::tokens::reloc_order()(
            a,
            b,
        ));
    assert forall|t: int|
        0 <= t < o1.reloc_groups@.len() implies group_tokens(
        (#[trigger] o2.reloc_groups@[t])@,
        sym2,
    ) == group_tokens((o1.reloc_groups@[t])@, sym1) by {
        let g1 = (o1.reloc_groups@[t])@;
        let g2 = (o2.reloc_groups@[t])@;
        assert(g2 == g1.map_values(phi));
        crate::sorting::lemma_stable_sort_map(
            g1,
            phi,
            crate::tokens::reloc_order(),
            crate::tokens::reloc_order(),
        );
        let s1 = crate::sorting::stable_sort(g1, crate::tokens::reloc_order());
        let s2 = crate::sorting::stable_sort(g2, crate::tokens::reloc_order());
        assert(s2 == s1.map_values(phi));
        assert(crate::model::wf_group(g1, n));
        crate::sorting::lemma_stable_sort_contains(g1, crate::tokens::reloc_order());
        assert forall|k: int| 0 <= k < s1.len() implies (#[trigger] s1[k]).symbol < n by {
            assert(s1.contains(s1[k]));
            assert(g1.contains(s1[k]));
            let j = choose|j: int| 0 <= j < g1.len() && g1[j] == s1[k];
            assert((g1[j]).symbol < n);
        }
        assert((exists|i: int| 0 <= i < s2.len() && (#[trigger] s2[i]).addend is Some) == (
        exists|i: int| 0 <= i < s1.len() && (#[trigger] s1[i]).addend is Some)) by {
            if exists|i: int| 0 <= i < s2.len() && (#[trigger] s2[i]).addend is Some {
                let i = choose|i: int| 0 <= i < s2.len() && (#[trigger] s2[i]).addend is Some;
                assert(s2[i] == phi(s1[i]));
                assert((s1[i]).addend is Some);
            }
            if exists|i: int| 0 <= i < s1.len() && (#[trigger] s1[i]).addend is Some {
                let i = choose|i: int| 0 <= i < s1.len() && (#[trigger] s1[i]).addend is Some;
                assert(s2[i] == phi(s1[i]));
                assert((s2[i]).addend is Some);
            }
        }
        if !(exists|i: int| 0 <= i < s1.len() && (#[trigger] s1[i]).addend is Some) {
            assert(s2.map_values(crate::tokens::reloc_token_fn(sym2)) =~= s1.map_values(
                crate::tokens::reloc_token_fn(sym1),
            )) by {
                assert forall|k: int|
                    0 <= k < s1.len() implies crate::tokens::reloc_token(
                    #[trigger] s2[k],
                    sym2,
                ) == crate::tokens::reloc_token(s1[k], sym1) by {
                    assert(s2[k] == phi(s1[k]));
                    assert(s1[k].symbol < n);
                    assert(sym2[p[s1[k].symbol as int] as int] == sym1[s1[k].symbol as int]);
                }
            }
        }
    }
    lemma_groups_tokens_pointwise(o1.reloc_groups@, o2.reloc_groups@, sym1, sym2);
    assert(object_tokens(o1) == object_tokens(o2));
}

/// Determinism: any two results that meet the fingerprint contract for
/// the same object and backend render the same characters; with the
/// raw backend this is the byte-identical-dump guarantee of two runs.
pub proof fn lemma_fingerprint_deterministic(
    o: ParsedObject,
    backend: Backend,
    r1: Result<String, crate::model::FingerprintError>,
    r2: Result<String, crate::model::FingerprintError>,
)
    requires
        crate::model::result_chars(r1) == spec_fingerprint(o, backend),
        crate::model::result_chars(r2) == spec_fingerprint(o, backend),
    ensures
        crate::model::result_chars(r1) == crate::model::result_chars(r2),
{
}

/// Determinism of a whole run: any two results that meet the member
/// processing contract for the same records and backend render the
/// same output text.
pub proof fn lemma_run_deterministic(
    records: Seq<MemberRecord>,
    backend: Backend,
    r1: Result<String, crate::model::FingerprintError>,
    r2: Result<String, crate::model::FingerprintError>,
)
    requires
        crate::model::result_chars(r1) == spec_output(records, backend),
        crate::model::result_chars(r2) == spec_output(records, backend),
    ensures
        crate::model::result_chars(r1) == crate::model::result_chars(r2),
{
}

} // verus!
