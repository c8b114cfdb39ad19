use vstd::prelude::*;
use vstd::relations::{sorted_by, strongly_connected, transitive};
use crate::model::{
    FingerprintError, ParsedObject, Relocation, Section, SectionKind, Symbol, wf_group, wf_object,
};
use crate::sorting::{
    lemma_map_values_push, lemma_stable_insert_at, lemma_stable_sort_multiset,
    lemma_stable_sort_sorted, stable_sort,
};
use crate::text::{dec_chars, dec_u64, lex_le, lemma_lex_le_antisym, lemma_lex_le_total,
    lemma_lex_le_trans, str_lex_le};
use vstd::slice::slice_to_vec;
use vstd::string::StringExecFns;

verus! {

broadcast use vstd::seq_lib::group_to_multiset_ensures;

/// One unit handed to the digest accumulator: either a text line or a
/// verbatim byte payload.
pub enum Token {
    Text(String),
    Bytes(Vec<u8>),
}

/// Mathematical image of a `Token`.
pub enum TokenView {
    Text(Seq<char>),
    Bytes(Seq<u8>),
}

impl View for Token {
    type V = TokenView;

    open spec fn view(&self) -> TokenView {
        match self {
            Token::Text(s) => TokenView::Text(s@),
            Token::Bytes(b) => TokenView::Bytes(b@),
        }
    }
}

pub open spec fn views_of(ts: Seq<Token>) -> Seq<TokenView> {
    ts.map_values(|t: Token| t@)
}

/// The fixed set of section names that contribute to the fingerprint:
/// code, initialized data, zero-fill data and read-only data.
pub open spec fn allowed_name(n: Seq<char>) -> bool {
    n == ".text"@ || n == ".data"@ || n == ".bss"@ || n == ".rodata"@
}

/// Decides whether two string slices have the same characters.
pub fn str_equal(a: &str, b: &str) -> (r: bool)
    ensures
        r == (a@ == b@),
{
    let le1 = str_lex_le(a, b);
    let le2 = str_lex_le(b, a);
    proof {
        if le1 && le2 {
            lemma_lex_le_antisym(a@, b@);
        }
        if a@ == b@ {
            lemma_lex_le_total(a@, b@);
        }
    }
    le1 && le2
}

/// Decides `allowed_name`.
pub fn name_allowed(n: &str) -> (r: bool)
    ensures
        r == allowed_name(n@),
{
    str_equal(n, ".text") || str_equal(n, ".data") || str_equal(n, ".bss") || str_equal(
        n,
        ".rodata",
    )
}

/// Relocations are ordered by target offset.
pub open spec fn reloc_order() -> spec_fn(Relocation, Relocation) -> bool {
    |a: Relocation, b: Relocation| a.offset <= b.offset
}

/// Symbols are ordered by name.
pub open spec fn symbol_order() -> spec_fn(Symbol, Symbol) -> bool {
    |a: Symbol, b: Symbol| lex_le(a.name@, b.name@)
}

pub proof fn lemma_reloc_order_well()
    ensures
        transitive(reloc_order()),
        strongly_connected(reloc_order()),
{
}

pub proof fn lemma_symbol_order_well()
    ensures
        transitive(symbol_order()),
        strongly_connected(symbol_order()),
{
    assert forall|x: Symbol, y: Symbol, z: Symbol|
        #[trigger] symbol_order()(x, y) && #[trigger] symbol_order()(y, z) implies symbol_order()(
        x,
        z,
    ) by {
        lemma_lex_le_trans(x.name@, y.name@, z.name@);
    }
    assert forall|x: Symbol, y: Symbol|
        true implies #[trigger] symbol_order()(x, y) || #[trigger] symbol_order()(y, x) by {
        lemma_lex_le_total(x.name@, y.name@);
    }
}

/// The ELF machine whose relocation-type names are used for tokens.
pub const RELOC_MACHINE: u16 = 8;

/// What the object-format library calls a relocation type on a machine.
pub uninterp spec fn reloc_name_chars(type_code: u32, machine: u16) -> Seq<char>;

/// Relies on goblin::elf::reloc::r_to_str: the printable name of a
/// relocation type, a fixed function of the type code and the machine.
#[verifier::external_body]
fn reloc_type_name(type_code: u32, machine: u16) -> (r: String)
    ensures
        r@ == reloc_name_chars(type_code, machine),
{
    goblin::elf::reloc::r_to_str(type_code, machine).to_string()
}

/// Tokens one section contributes: its name then its bytes when it has
/// content, one line naming its declared size when it is zero-fill.
pub open spec fn section_tokens(s: Section) -> Result<Seq<TokenView>, FingerprintError> {
    if !allowed_name(s.name@) {
        Ok(seq![])
    } else {
        match s.kind {
            SectionKind::Content => Ok(
                seq![TokenView::Text(s.name@), TokenView::Bytes(s.bytes@)],
            ),
            SectionKind::ZeroFill => Ok(
                seq![TokenView::Text("BSS: "@ + dec_chars(s.size as int))],
            ),
            SectionKind::Unsupported => Err(FingerprintError::UnknownSectionKind),
        }
    }
}

pub open spec fn sections_tokens(ss: Seq<Section>) -> Result<Seq<TokenView>, FingerprintError>
    decreases ss.len(),
{
    if ss.len() == 0 {
        Ok(seq![])
    } else {
        match sections_tokens(ss.drop_last()) {
            Err(e) => Err(e),
            Ok(ts) => match section_tokens(ss.last()) {
                Err(e) => Err(e),
                Ok(t) => Ok(ts + t),
            },
        }
    }
}

/// The text token for one relocation, naming its type, target offset and
/// the symbol it refers to.
pub open spec fn reloc_token(r: Relocation, symbols: Seq<Symbol>) -> TokenView {
    TokenView::Text(
        reloc_name_chars(r.type_code, RELOC_MACHINE) + " at "@ + dec_chars(r.offset as int)
            + "->"@ + symbols[r.symbol as int].name@,
    )
}

pub open spec fn reloc_token_fn(symbols: Seq<Symbol>) -> spec_fn(Relocation) -> TokenView {
    |r: Relocation| reloc_token(r, symbols)
}

/// Tokens of one relocation list: sorted by offset; any present addend
/// is outside the model and fatal.
pub open spec fn group_tokens(g: Seq<Relocation>, symbols: Seq<Symbol>) -> Result<
    Seq<TokenView>,
    FingerprintError,
> {
    let sorted = stable_sort(g, reloc_order());
    if exists|i: int| 0 <= i < sorted.len() && (#[trigger] sorted[i]).addend is Some {
        Err(FingerprintError::RelocationAddend)
    } else {
        Ok(sorted.map_values(reloc_token_fn(symbols)))
    }
}

pub open spec fn groups_tokens(gs: Seq<Vec<Relocation>>, symbols: Seq<Symbol>) -> Result<
    Seq<TokenView>,
    FingerprintError,
>
    decreases gs.len(),
{
    if gs.len() == 0 {
        Ok(seq![])
    } else {
        match groups_tokens(gs.drop_last(), symbols) {
            Err(e) => Err(e),
            Ok(ts) => match group_tokens(gs.last()@, symbols) {
                Err(e) => Err(e),
                Ok(t) => Ok(ts + t),
            },
        }
    }
}

/// The text token for one defined symbol.
pub open spec fn symbol_token(s: Symbol) -> TokenView {
    TokenView::Text(
        s.name@ + ": off "@ + dec_chars(s.value as int) + " size "@ + dec_chars(s.size as int),
    )
}

/// Holds of the symbols that contribute to the symbol pass.
pub open spec fn defined_pred() -> spec_fn(Symbol) -> bool {
    |s: Symbol| !s.imported
}

pub open spec fn symbol_token_fn() -> spec_fn(Symbol) -> TokenView {
    |s: Symbol| symbol_token(s)
}

/// Tokens of the symbol pass: every symbol, sorted by name rather than
/// by table position, imported symbols skipped.
pub open spec fn symbols_tokens(symbols: Seq<Symbol>) -> Seq<TokenView> {
    stable_sort(symbols, symbol_order()).filter(defined_pred()).map_values(symbol_token_fn())
}

/// The canonical token stream of one object: section pass, then
/// relocation pass, then symbol pass.
pub open spec fn object_tokens(o: ParsedObject) -> Result<Seq<TokenView>, FingerprintError> {
    match sections_tokens(o.sections@) {
        Err(e) => Err(e),
        Ok(a) => match groups_tokens(o.reloc_groups@, o.symbols@) {
            Err(e) => Err(e),
            Ok(b) => Ok(a + b + symbols_tokens(o.symbols@)),
        },
    }
}

/// Sorts one relocation list by target offset, keeping the input order
/// of equal offsets.
pub fn sort_relocs(g: &Vec<Relocation>) -> (r: Vec<Relocation>)
    ensures
        r@ == stable_sort(g@, reloc_order()),
{
    proof {
        lemma_reloc_order_well();
    }
    let mut out: Vec<Relocation> = Vec::new();
    let mut i: usize = 0;
    while i < g.len()
        invariant
            i <= g@.len(),
            out@ == stable_sort(g@.take(i as int), reloc_order()),
            transitive(reloc_order()),
            strongly_connected(reloc_order()),
        decreases g@.len() - i,
    {
        let x = g[i];
        proof {
            lemma_stable_sort_sorted(g@.take(i as int), reloc_order());
        }
        let mut j: usize = out.len();
        while j > 0 && out[j - 1].offset > x.offset
            invariant
                j <= out@.len(),
                sorted_by(out@, reloc_order()),
                forall|k: int| j <= k < out@.len() ==> (#[trigger] out@[k]).offset > x.offset,
            decreases j,
        {
            j -= 1;
        }
        proof {
            assert forall|k: int| 0 <= k < j implies #[trigger] reloc_order()(out@[k], x) by {
                assert(out@[j - 1].offset <= x.offset);
                if k < j - 1 {
                    assert(reloc_order()(out@[k], out@[j - 1]));
                }
            }
            assert(j == out@.len() || !reloc_order()(out@[j as int], x));
            lemma_stable_insert_at(out@, x, reloc_order(), j as int);
        }
        let ghost prev = out@;
        out.insert(j, x);
        proof {
            assert(out@ =~= prev.take(j as int) + seq![x] + prev.skip(j as int));
            assert(g@.take(i as int + 1).drop_last() =~= g@.take(i as int));
            assert(g@.take(i as int + 1).last() == g@[i as int]);
            assert(out@ == stable_sort(g@.take(i as int + 1), reloc_order()));
        }
        i += 1;
    }
    proof {
        assert(g@.take(g@.len() as int) =~= g@);
    }
    out
}

/// Gives the positions of the symbols in name order; the table itself is
/// left alone so relocation resolution keeps its indices.
pub fn sorted_symbol_indices(symbols: &Vec<Symbol>) -> (r: Vec<usize>)
    ensures
        r@.len() == stable_sort(symbols@, symbol_order()).len(),
        forall|t: int| 0 <= t < r@.len() ==> (#[trigger] r@[t]) < symbols@.len(),
        forall|t: int|
            0 <= t < r@.len() ==> symbols@[r@[t] as int] == stable_sort(
                symbols@,
                symbol_order(),
            )[t],
{
    proof {
        lemma_symbol_order_well();
    }
    let mut out: Vec<usize> = Vec::new();
    let mut i: usize = 0;
    while i < symbols.len()
        invariant
            i <= symbols@.len(),
            out@.map_values(|k: usize| symbols@[k as int]) == stable_sort(
                symbols@.take(i as int),
                symbol_order(),
            ),
            forall|t: int| 0 <= t < out@.len() ==> (#[trigger] out@[t]) < symbols@.len(),
            transitive(symbol_order()),
            strongly_connected(symbol_order()),
        decreases symbols@.len() - i,
    {
        let ghost mapped = out@.map_values(|k: usize| symbols@[k as int]);
        proof {
            lemma_stable_sort_sorted(symbols@.take(i as int), symbol_order());
        }
        let mut j: usize = out.len();
        while j > 0 && !str_lex_le(
            symbols[out[j - 1]].name.as_str(),
            symbols[i].name.as_str(),
        )
            invariant
                j <= out@.len(),
                i < symbols@.len(),
                mapped == out@.map_values(|k: usize| symbols@[k as int]),
                sorted_by(mapped, symbol_order()),
                forall|t: int| 0 <= t < out@.len() ==> (#[trigger] out@[t]) < symbols@.len(),
                forall|k: int|
                    j <= k < mapped.len() ==> !(#[trigger] symbol_order()(
                        mapped[k],
                        symbols@[i as int],
                    )),
            decreases j,
        {
            j -= 1;
        }
        let ghost x = symbols@[i as int];
        proof {
            assert forall|k: int| 0 <= k < j implies #[trigger] symbol_order()(mapped[k], x) by {
                assert(symbol_order()(mapped[j - 1], x));
                if k < j - 1 {
                    assert(symbol_order()(mapped[k], mapped[j - 1]));
                    lemma_lex_le_trans(mapped[k].name@, mapped[j - 1].name@, x.name@);
                }
            }
            assert(j == mapped.len() || !symbol_order()(mapped[j as int], x));
            lemma_stable_insert_at(mapped, x, symbol_order(), j as int);
        }
        let ghost prev = out@;
        out.insert(j, i);
        proof {
            assert(out@ =~= prev.insert(j as int, i));
            assert(out@.map_values(|k: usize| symbols@[k as int]) =~= mapped.take(j as int)
                + seq![x] + mapped.skip(j as int)) by {
                prev.insert_ensures(j as int, i);
            }
            assert(symbols@.take(i as int + 1).drop_last() =~= symbols@.take(i as int));
            assert(symbols@.take(i as int + 1).last() == symbols@[i as int]);
            assert(out@.map_values(|k: usize| symbols@[k as int]) == stable_sort(
                symbols@.take(i as int + 1),
                symbol_order(),
            ));
        }
        i += 1;
    }
    proof {
        assert(symbols@.take(symbols@.len() as int) =~= symbols@);
        let mapped = out@.map_values(|k: usize| symbols@[k as int]);
        assert(mapped == stable_sort(symbols@, symbol_order()));
        assert forall|t: int| 0 <= t < out@.len() implies symbols@[out@[t] as int] == stable_sort(
            symbols@,
            symbol_order(),
        )[t] by {
            assert(mapped[t] == symbols@[out@[t] as int]);
        }
    }
    out
}

pub proof fn lemma_sections_tokens_err(ss: Seq<Section>, i: int)
    requires
        0 <= i < ss.len(),
        sections_tokens(ss.take(i)) is Ok,
        section_tokens(ss[i]) is Err,
    ensures
        sections_tokens(ss) == Result::<Seq<TokenView>, FingerprintError>::Err(
            section_tokens(ss[i])->Err_0,
        ),
    decreases ss.len(),
{
    if i == ss.len() - 1 {
        assert(ss.drop_last() =~= ss.take(i));
    } else {
        assert(ss.drop_last().take(i) =~= ss.take(i));
        assert(ss.drop_last()[i] == ss[i]);
        lemma_sections_tokens_err(ss.drop_last(), i);
    }
}

pub proof fn lemma_groups_tokens_err(gs: Seq<Vec<Relocation>>, symbols: Seq<Symbol>, i: int)
    requires
        0 <= i < gs.len(),
        groups_tokens(gs.take(i), symbols) is Ok,
        group_tokens(gs[i]@, symbols) is Err,
    ensures
        groups_tokens(gs, symbols) == Result::<Seq<TokenView>, FingerprintError>::Err(
            group_tokens(gs[i]@, symbols)->Err_0,
        ),
    decreases gs.len(),
{
    if i == gs.len() - 1 {
        assert(gs.drop_last() =~= gs.take(i));
    } else {
        assert(gs.drop_last().take(i) =~= gs.take(i));
        assert(gs.drop_last()[i] == gs[i]);
        lemma_groups_tokens_err(gs.drop_last(), symbols, i);
    }
}

pub open spec fn tokens_result_view(r: Result<Vec<Token>, FingerprintError>) -> Result<
    Seq<TokenView>,
    FingerprintError,
> {
    match r {
        Ok(ts) => Ok(views_of(ts@)),
        Err(e) => Err(e),
    }
}

/// Walks one object in canonical order and produces its token stream:
/// exactly the stream of `object_tokens`, or its first stage error.
pub fn compose_tokens(o: &ParsedObject) -> (r: Result<Vec<Token>, FingerprintError>)
    requires
        wf_object(*o),
    ensures
        tokens_result_view(r) == object_tokens(*o),
{
    let mut toks: Vec<Token> = Vec::new();
    proof {
        assert(o.sections@.take(0) =~= Seq::<Section>::empty());
        assert(views_of(toks@) =~= Seq::<TokenView>::empty());
        assert(sections_tokens(o.sections@.take(0)) == Result::<
            Seq<TokenView>,
            FingerprintError,
        >::Ok(views_of(toks@)));
    }
    let mut si: usize = 0;
    while si < o.sections.len()
        invariant
            si <= o.sections@.len(),
            wf_object(*o),
            sections_tokens(o.sections@.take(si as int)) == Result::<
                Seq<TokenView>,
                FingerprintError,
            >::Ok(views_of(toks@)),
        decreases o.sections@.len() - si,
    {
        let sec = &o.sections[si];
        let ghost prev = toks@;
        if name_allowed(sec.name.as_str()) {
            match sec.kind {
                SectionKind::Content => {
                    toks.push(Token::Text(sec.name.clone()));
                    toks.push(Token::Bytes(slice_to_vec(sec.bytes.as_slice())));
                    proof {
                        assert(views_of(toks@) =~= views_of(prev) + seq![
                            TokenView::Text(sec.name@),
                            TokenView::Bytes(sec.bytes@),
                        ]);
                    }
                },
                SectionKind::ZeroFill => {
                    let mut t = String::from_str("BSS: ");
                    let d = dec_u64(sec.size);
                    t.append(d.as_str());
                    let ghost tview = t@;
                    toks.push(Token::Text(t));
                    proof {
                        assert(tview == "BSS: "@ + dec_chars(sec.size as int));
                        assert(views_of(toks@) =~= views_of(prev) + seq![TokenView::Text(tview)]);
                    }
                },
                SectionKind::Unsupported => {
                    proof {
                        lemma_sections_tokens_err(o.sections@, si as int);
                    }
                    return Err(FingerprintError::UnknownSectionKind);
                },
            }
        } else {
            proof {
                assert(views_of(toks@) =~= views_of(prev) + Seq::<TokenView>::empty());
            }
        }
        proof {
            assert(o.sections@.take(si as int + 1).drop_last() =~= o.sections@.take(si as int));
            assert(o.sections@.take(si as int + 1).last() == o.sections@[si as int]);
            assert(sections_tokens(o.sections@.take(si as int + 1)) == Result::<
                Seq<TokenView>,
                FingerprintError,
            >::Ok(views_of(toks@)));
        }
        si += 1;
    }
    proof {
        assert(o.sections@.take(o.sections@.len() as int) =~= o.sections@);
    }
    let ghost sec_ts = views_of(toks@);
    proof {
        assert(o.reloc_groups@.take(0) =~= Seq::<Vec<Relocation>>::empty());
        assert(groups_tokens(o.reloc_groups@.take(0), o.symbols@) == Result::<
            Seq<TokenView>,
            FingerprintError,
        >::Ok(Seq::<TokenView>::empty()));
        assert(views_of(toks@) =~= sec_ts + Seq::<TokenView>::empty());
    }
    let mut gi: usize = 0;
    while gi < o.reloc_groups.len()
        invariant
            gi <= o.reloc_groups@.len(),
            wf_object(*o),
            sections_tokens(o.sections@) == Result::<Seq<TokenView>, FingerprintError>::Ok(sec_ts),
            groups_tokens(o.reloc_groups@.take(gi as int), o.symbols@) is Ok,
            views_of(toks@) == sec_ts + groups_tokens(
                o.reloc_groups@.take(gi as int),
                o.symbols@,
            )->Ok_0,
        decreases o.reloc_groups@.len() - gi,
    {
        let g = &o.reloc_groups[gi];
        let sorted = sort_relocs(g);
        let ghost base = views_of(toks@);
        proof {
            assert(sorted@.take(0) =~= Seq::<Relocation>::empty());
            assert(sorted@.take(0).map_values(reloc_token_fn(o.symbols@))
                =~= Seq::<TokenView>::empty());
            assert(views_of(toks@) =~= base + sorted@.take(0).map_values(
                reloc_token_fn(o.symbols@),
            ));
        }
        let mut ri: usize = 0;
        while ri < sorted.len()
            invariant
                ri <= sorted@.len(),
                wf_object(*o),
                gi < o.reloc_groups@.len(),
                *g == o.reloc_groups@[gi as int],
                sorted@ == stable_sort(g@, reloc_order()),
                forall|k: int| 0 <= k < ri ==> (#[trigger] sorted@[k]).addend is None,
                views_of(toks@) == base + sorted@.take(ri as int).map_values(
                    reloc_token_fn(o.symbols@),
                ),
                base == sec_ts + groups_tokens(o.reloc_groups@.take(gi as int), o.symbols@)->Ok_0,
                groups_tokens(o.reloc_groups@.take(gi as int), o.symbols@) is Ok,
                sections_tokens(o.sections@) == Result::<Seq<TokenView>, FingerprintError>::Ok(
                    sec_ts,
                ),
            decreases sorted@.len() - ri,
        {
            let rl = sorted[ri];
            if rl.addend.is_some() {
                proof {
                    assert((stable_sort(g@, reloc_order()))[ri as int].addend is Some);
                    assert(group_tokens(g@, o.symbols@) == Result::<
                        Seq<TokenView>,
                        FingerprintError,
                    >::Err(FingerprintError::RelocationAddend));
                    lemma_groups_tokens_err(o.reloc_groups@, o.symbols@, gi as int);
                }
                return Err(FingerprintError::RelocationAddend);
            }
            proof {
                lemma_stable_sort_multiset(g@, reloc_order());
                assert(sorted@.contains(sorted@[ri as int]));
                assert(g@.contains(sorted@[ri as int])) by {
                    assert(sorted@.to_multiset().count(sorted@[ri as int]) > 0);
                }
                let k = choose|k: int| 0 <= k < g@.len() && g@[k] == sorted@[ri as int];
                assert(wf_group(g@, o.symbols@.len() as int));
                assert((g@[k]).symbol < o.symbols@.len());
            }
            let mut t = reloc_type_name(rl.type_code, RELOC_MACHINE);
            t.append(" at ");
            let d = dec_u64(rl.offset);
            t.append(d.as_str());
            t.append("->");
            t.append(o.symbols[rl.symbol].name.as_str());
            let ghost tview = t@;
            let ghost prevt = toks@;
            toks.push(Token::Text(t));
            proof {
                assert(views_of(toks@) =~= views_of(prevt).push(TokenView::Text(tview)));
                assert(TokenView::Text(tview) == reloc_token(sorted@[ri as int], o.symbols@));
                assert(sorted@.take(ri as int + 1) =~= sorted@.take(ri as int).push(
                    sorted@[ri as int],
                ));
                lemma_map_values_push(
                    sorted@.take(ri as int),
                    sorted@[ri as int],
                    reloc_token_fn(o.symbols@),
                );
                assert(views_of(toks@) =~= base + sorted@.take(ri as int + 1).map_values(
                    reloc_token_fn(o.symbols@),
                ));
            }
            ri += 1;
        }
        proof {
            assert(sorted@.take(sorted@.len() as int) =~= sorted@);
            assert(!(exists|i: int|
                0 <= i < stable_sort(g@, reloc_order()).len() && (#[trigger] stable_sort(
                    g@,
                    reloc_order(),
                )[i]).addend is Some));
            assert(group_tokens(g@, o.symbols@) == Result::<Seq<TokenView>, FingerprintError>::Ok(
                sorted@.map_values(reloc_token_fn(o.symbols@)),
            ));
            assert(o.reloc_groups@.take(gi as int + 1).drop_last() =~= o.reloc_groups@.take(
                gi as int,
            ));
            assert(o.reloc_groups@.take(gi as int + 1).last() == o.reloc_groups@[gi as int]);
            assert(views_of(toks@) =~= sec_ts + (groups_tokens(
                o.reloc_groups@.take(gi as int),
                o.symbols@,
            )->Ok_0 + sorted@.map_values(reloc_token_fn(o.symbols@))));
            assert(groups_tokens(o.reloc_groups@.take(gi as int + 1), o.symbols@) is Ok);
            assert(views_of(toks@) == sec_ts + groups_tokens(
                o.reloc_groups@.take(gi as int + 1),
                o.symbols@,
            )->Ok_0);
        }
        gi += 1;
    }
    proof {
        assert(o.reloc_groups@.take(o.reloc_groups@.len() as int) =~= o.reloc_groups@);
    }
    let ghost grp_ts = groups_tokens(o.reloc_groups@, o.symbols@)->Ok_0;
    let ghost base2 = views_of(toks@);
    let ghost ssorted = stable_sort(o.symbols@, symbol_order());
    let idxs = sorted_symbol_indices(&o.symbols);
    proof {
        assert(ssorted.take(0) =~= Seq::<Symbol>::empty());
        assert(Seq::<Symbol>::empty().filter(defined_pred()) =~= Seq::<Symbol>::empty()) by {
            reveal(Seq::filter);
        }
        assert(ssorted.take(0).filter(defined_pred()).map_values(symbol_token_fn())
            =~= Seq::<TokenView>::empty());
        assert(views_of(toks@) =~= base2 + ssorted.take(0).filter(defined_pred()).map_values(
            symbol_token_fn(),
        ));
    }
    let mut k: usize = 0;
    while k < idxs.len()
        invariant
            k <= idxs@.len(),
            idxs@.len() == ssorted.len(),
            ssorted == stable_sort(o.symbols@, symbol_order()),
            forall|t: int| 0 <= t < idxs@.len() ==> (#[trigger] idxs@[t]) < o.symbols@.len(),
            forall|t: int| 0 <= t < idxs@.len() ==> o.symbols@[idxs@[t] as int] == ssorted[t],
            views_of(toks@) == base2 + ssorted.take(k as int).filter(defined_pred()).map_values(
                symbol_token_fn(),
            ),
            base2 == sec_ts + grp_ts,
            sections_tokens(o.sections@) == Result::<Seq<TokenView>, FingerprintError>::Ok(sec_ts),
            groups_tokens(o.reloc_groups@, o.symbols@) == Result::<
                Seq<TokenView>,
                FingerprintError,
            >::Ok(grp_ts),
        decreases idxs@.len() - k,
    {
        let s = &o.symbols[idxs[k]];
        let ghost prevt = toks@;
        proof {
            assert(*s == ssorted[k as int]);
        }
        if !s.imported {
            let mut t = s.name.clone();
            t.append(": off ");
            let d1 = dec_u64(s.value);
            t.append(d1.as_str());
            t.append(" size ");
            let d2 = dec_u64(s.size);
            t.append(d2.as_str());
            let ghost tview = t@;
            toks.push(Token::Text(t));
            proof {
                assert(TokenView::Text(tview) == symbol_token(ssorted[k as int]));
                assert(views_of(toks@) =~= views_of(prevt).push(TokenView::Text(tview)));
            }
        }
        proof {
            let pred = defined_pred();
            let stk = ssorted.take(k as int);
            assert(ssorted.take(k as int + 1) =~= stk.push(ssorted[k as int]));
            stk.lemma_filter_push(ssorted[k as int], pred);
            if pred(ssorted[k as int]) {
                lemma_map_values_push(stk.filter(pred), ssorted[k as int], symbol_token_fn());
                assert(views_of(toks@) =~= base2 + ssorted.take(k as int + 1).filter(
                    pred,
                ).map_values(symbol_token_fn()));
            } else {
                assert(views_of(toks@) == base2 + ssorted.take(k as int + 1).filter(
                    pred,
                ).map_values(symbol_token_fn()));
            }
        }
        k += 1;
    }
    proof {
        assert(ssorted.take(ssorted.len() as int) =~= ssorted);
        assert(views_of(toks@) == sec_ts + grp_ts + symbols_tokens(o.symbols@));
        assert(object_tokens(*o) == Result::<Seq<TokenView>, FingerprintError>::Ok(
            views_of(toks@),
        ));
    }
    Ok(toks)
}

} // verus!
