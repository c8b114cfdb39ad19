use vstd::prelude::*;
use crate::model::FingerprintError;
use crate::tokens::{Token, TokenView, views_of};
use vstd::string::{StrSliceExecFns, StringExecFns};

verus! {

/// The character for one hexadecimal digit, upper case.
pub open spec fn hex_digit(d: int) -> char {
    if d == 0 {
        '0'
    } else if d == 1 {
        '1'
    } else if d == 2 {
        '2'
    } else if d == 3 {
        '3'
    } else if d == 4 {
        '4'
    } else if d == 5 {
        '5'
    } else if d == 6 {
        '6'
    } else if d == 7 {
        '7'
    } else if d == 8 {
        '8'
    } else if d == 9 {
        '9'
    } else if d == 10 {
        'A'
    } else if d == 11 {
        'B'
    } else if d == 12 {
        'C'
    } else if d == 13 {
        'D'
    } else if d == 14 {
        'E'
    } else {
        'F'
    }
}

/// Two hex characters for one byte, high digit first.
pub open spec fn byte_hex(b: u8) -> Seq<char> {
    seq![hex_digit(b as int / 16), hex_digit(b as int % 16)]
}

/// Eight hex characters for one 4-byte group.
pub open spec fn word_hex(b: Seq<u8>) -> Seq<char>
    recommends
        b.len() == 4,
{
    byte_hex(b[0]) + byte_hex(b[1]) + byte_hex(b[2]) + byte_hex(b[3])
}

/// The 4-byte groups of a payload, each rendered in hex.
pub open spec fn words_of(b: Seq<u8>) -> Seq<Seq<char>>
    recommends
        b.len() % 4 == 0,
    decreases b.len(),
{
    if b.len() < 4 {
        seq![]
    } else {
        words_of(b.take(b.len() - 4)).push(word_hex(b.skip(b.len() - 4)))
    }
}

/// Parts joined with a separator.
pub open spec fn join_with(parts: Seq<Seq<char>>, sep: Seq<char>) -> Seq<char>
    decreases parts.len(),
{
    if parts.len() == 0 {
        seq![]
    } else if parts.len() == 1 {
        parts[0]
    } else {
        join_with(parts.drop_last(), sep) + sep + parts.last()
    }
}

/// Groups gathered eight to a line, space separated within the line.
pub open spec fn lines_of(ws: Seq<Seq<char>>) -> Seq<Seq<char>>
    decreases ws.len(),
{
    if ws.len() == 0 {
        seq![]
    } else if ws.len() <= 8 {
        seq![join_with(ws, " "@)]
    } else {
        seq![join_with(ws.take(8), " "@)] + lines_of(ws.skip(8))
    }
}

/// How the raw backend renders one byte payload: big-endian 4-byte hex
/// groups, 8 groups per line, lines newline-joined.
pub open spec fn bytes_dump(b: Seq<u8>) -> Seq<char> {
    join_with(lines_of(words_of(b)), "\n"@)
}

/// The raw backend's stored entry for one token; a byte payload must be
/// 4-byte aligned for the grouping to be defined.
pub open spec fn entry_chars(t: TokenView) -> Result<Seq<char>, FingerprintError> {
    match t {
        TokenView::Text(s) => Ok(s),
        TokenView::Bytes(b) => if b.len() % 4 == 0 {
            Ok(bytes_dump(b))
        } else {
            Err(FingerprintError::MisalignedPayload)
        },
    }
}

pub open spec fn entries_chars(ts: Seq<TokenView>) -> Result<Seq<Seq<char>>, FingerprintError>
    decreases ts.len(),
{
    if ts.len() == 0 {
        Ok(seq![])
    } else {
        match entries_chars(ts.drop_last()) {
            Err(e) => Err(e),
            Ok(es) => match entry_chars(ts.last()) {
                Err(e) => Err(e),
                Ok(en) => Ok(es.push(en)),
            },
        }
    }
}

/// What the raw backend finalizes to: the entries joined by newlines.
pub open spec fn raw_render(ts: Seq<TokenView>) -> Result<Seq<char>, FingerprintError> {
    match entries_chars(ts) {
        Err(e) => Err(e),
        Ok(es) => Ok(join_with(es, "\n"@)),
    }
}

pub open spec fn str_views(ss: Seq<String>) -> Seq<Seq<char>> {
    ss.map_values(|s: String| s@)
}

pub proof fn lemma_entries_chars_err(ts: Seq<TokenView>, i: int)
    requires
        0 <= i < ts.len(),
        entries_chars(ts.take(i)) is Ok,
        entry_chars(ts[i]) is Err,
    ensures
        entries_chars(ts) == Result::<Seq<Seq<char>>, FingerprintError>::Err(
            entry_chars(ts[i])->Err_0,
        ),
    decreases ts.len(),
{
    if i == ts.len() - 1 {
        assert(ts.drop_last() =~= ts.take(i));
    } else {
        assert(ts.drop_last().take(i) =~= ts.take(i));
        assert(ts.drop_last()[i] == ts[i]);
        lemma_entries_chars_err(ts.drop_last(), i);
    }
}

/// Appends the two hex characters of one byte.
fn push_byte_hex(t: &mut String, b: u8)
    ensures
        final(t)@ == old(t)@ + byte_hex(b),
{
    let table = "0123456789ABCDEF";
    proof {
        reveal_strlit("0123456789ABCDEF");
        assert(table.is_ascii());
    }
    let hi = (b / 16) as usize;
    let lo = (b % 16) as usize;
    let h = table.substring_ascii(hi, hi + 1);
    let l = table.substring_ascii(lo, lo + 1);
    t.append(h);
    t.append(l);
    proof {
        assert(h@ =~= seq![hex_digit(b as int / 16)]);
        assert(l@ =~= seq![hex_digit(b as int % 16)]);
        assert(final(t)@ =~= old(t)@ + byte_hex(b));
    }
}

/// Renders one aligned byte payload as the raw backend stores it.
pub fn bytes_dump_exec(b: &Vec<u8>) -> (r: String)
    requires
        b@.len() % 4 == 0,
    ensures
        r@ == bytes_dump(b@),
{
    let mut words: Vec<String> = Vec::new();
    proof {
        assert(b@.take(0) =~= Seq::<u8>::empty());
        assert(str_views(words@) =~= words_of(b@.take(0)));
    }
    let mut p: usize = 0;
    while p < b.len()
        invariant
            p <= b@.len(),
            p % 4 == 0,
            b@.len() % 4 == 0,
            str_views(words@) == words_of(b@.take(p as int)),
        decreases b@.len() - p,
    {
        assert(p + 4 <= b@.len());
        let mut w = String::new();
        push_byte_hex(&mut w, b[p]);
        push_byte_hex(&mut w, b[p + 1]);
        push_byte_hex(&mut w, b[p + 2]);
        push_byte_hex(&mut w, b[p + 3]);
        let ghost wview = w@;
        let ghost prev = words@;
        words.push(w);
        proof {
            let sub = b@.subrange(p as int, p as int + 4);
            assert(wview =~= word_hex(sub)) by {
                assert(sub[0] == b@[p as int]);
                assert(sub[1] == b@[p as int + 1]);
                assert(sub[2] == b@[p as int + 2]);
                assert(sub[3] == b@[p as int + 3]);
            }
            assert(b@.take(p as int + 4).take(p as int) =~= b@.take(p as int));
            assert(b@.take(p as int + 4).skip(p as int) =~= sub);
            assert(words_of(b@.take(p as int + 4)) == words_of(b@.take(p as int)).push(
                word_hex(sub),
            ));
            assert(str_views(words@) =~= str_views(prev).push(wview));
        }
        p += 4;
    }
    proof {
        assert(b@.take(b@.len() as int) =~= b@);
    }
    let mut lines: Vec<String> = Vec::new();
    let ghost allwords = str_views(words@);
    let mut q: usize = 0;
    proof {
        assert(allwords.skip(0) =~= allwords);
        assert(str_views(lines@) =~= Seq::<Seq<char>>::empty());
        assert(lines_of(allwords) =~= str_views(lines@) + lines_of(allwords.skip(0)));
    }
    while words.len() - q > 8
        invariant
            q <= words@.len(),
            allwords == str_views(words@),
            lines_of(allwords) == str_views(lines@) + lines_of(allwords.skip(q as int)),
        decreases words@.len() - q,
    {
        let line = join_range(&words, q, q + 8, " ");
        let ghost prev = lines@;
        lines.push(line);
        proof {
            let rest = allwords.skip(q as int);
            assert(rest.len() > 8);
            assert(rest.take(8) =~= allwords.subrange(q as int, q as int + 8));
            assert(rest.skip(8) =~= allwords.skip(q as int + 8));
            assert(str_views(lines@) =~= str_views(prev).push(
                join_with(allwords.subrange(q as int, q as int + 8), " "@),
            ));
            assert(lines_of(allwords) =~= str_views(lines@) + lines_of(
                allwords.skip(q as int + 8),
            ));
        }
        q += 8;
    }
    if q < words.len() {
        let line = join_range(&words, q, words.len(), " ");
        let ghost prev = lines@;
        lines.push(line);
        proof {
            let rest = allwords.skip(q as int);
            assert(0 < rest.len() <= 8);
            assert(rest =~= allwords.subrange(q as int, allwords.len() as int));
            assert(lines_of(rest) =~= seq![join_with(rest, " "@)]);
            assert(str_views(lines@) =~= str_views(prev).push(join_with(rest, " "@)));
            assert(lines_of(allwords) =~= str_views(lines@));
        }
    } else {
        proof {
            assert(allwords.skip(q as int).len() == 0);
            assert(lines_of(allwords.skip(q as int)) =~= Seq::<Seq<char>>::empty());
            assert(lines_of(allwords) =~= str_views(lines@));
        }
    }
    let r = join_parts(&lines, "\n");
    proof {
        assert(r@ == bytes_dump(b@));
    }
    r
}

/// Joins the slice `[from, to)` of `parts` with `sep`.
fn join_range(parts: &Vec<String>, from: usize, to: usize, sep: &str) -> (r: String)
    requires
        from < to <= parts@.len(),
    ensures
        r@ == join_with(str_views(parts@).subrange(from as int, to as int), sep@),
{
    let mut r = parts[from].clone();
    proof {
        assert(str_views(parts@).subrange(from as int, from as int + 1) =~= seq![
            parts@[from as int]@,
        ]);
    }
    let mut i: usize = from + 1;
    while i < to
        invariant
            from < i <= to <= parts@.len(),
            r@ == join_with(str_views(parts@).subrange(from as int, i as int), sep@),
        decreases to - i,
    {
        r.append(sep);
        r.append(parts[i].as_str());
        proof {
            let sv = str_views(parts@);
            assert(sv.subrange(from as int, i as int + 1).drop_last() =~= sv.subrange(
                from as int,
                i as int,
            ));
            assert(sv.subrange(from as int, i as int + 1).last() == parts@[i as int]@);
            assert(sv.subrange(from as int, i as int + 1).len() > 1);
        }
        i += 1;
    }
    r
}

/// Joins all of `parts` with `sep`.
pub fn join_parts(parts: &Vec<String>, sep: &str) -> (r: String)
    ensures
        r@ == join_with(str_views(parts@), sep@),
{
    if parts.len() == 0 {
        proof {
            assert(str_views(parts@).len() == 0);
        }
        String::new()
    } else {
        let r = join_range(parts, 0, parts.len(), sep);
        proof {
            assert(str_views(parts@).subrange(0, parts@.len() as int) =~= str_views(parts@));
        }
        r
    }
}

/// The raw backend: stores each token verbatim (byte payloads rendered
/// as hex groups) and finalizes to the newline-joined entries.
pub fn raw_finalize(toks: &Vec<Token>) -> (r: Result<String, FingerprintError>)
    ensures
        match r {
            Ok(s) => raw_render(views_of(toks@)) == Result::<Seq<char>, FingerprintError>::Ok(s@),
            Err(e) => raw_render(views_of(toks@)) == Result::<Seq<char>, FingerprintError>::Err(e),
        },
{
    let ghost tviews = views_of(toks@);
    let mut entries: Vec<String> = Vec::new();
    proof {
        assert(tviews.take(0) =~= Seq::<TokenView>::empty());
        assert(str_views(entries@) =~= Seq::<Seq<char>>::empty());
        assert(entries_chars(tviews.take(0)) == Result::<Seq<Seq<char>>, FingerprintError>::Ok(
            str_views(entries@),
        ));
    }
    let mut i: usize = 0;
    while i < toks.len()
        invariant
            i <= toks@.len(),
            tviews == views_of(toks@),
            tviews.len() == toks@.len(),
            entries_chars(tviews.take(i as int)) == Result::<Seq<Seq<char>>, FingerprintError>::Ok(
                str_views(entries@),
            ),
        decreases toks@.len() - i,
    {
        let ghost prev = entries@;
        proof {
            assert(tviews[i as int] == toks@[i as int]@);
        }
        match &toks[i] {
            Token::Text(s) => {
                entries.push(s.clone());
                proof {
                    assert(entry_chars(tviews[i as int]) == Result::<
                        Seq<char>,
                        FingerprintError,
                    >::Ok(s@));
                    assert(str_views(entries@) =~= str_views(prev).push(s@));
                }
            },
            Token::Bytes(b) => {
                if b.len() % 4 != 0 {
                    proof {
                        assert(entry_chars(tviews[i as int]) is Err);
                        lemma_entries_chars_err(tviews, i as int);
                    }
                    return Err(FingerprintError::MisalignedPayload);
                }
                let d = bytes_dump_exec(b);
                let ghost dview = d@;
                entries.push(d);
                proof {
                    assert(entry_chars(tviews[i as int]) == Result::<
                        Seq<char>,
                        FingerprintError,
                    >::Ok(dview));
                    assert(str_views(entries@) =~= str_views(prev).push(dview));
                }
            },
        }
        proof {
            assert(tviews.take(i as int + 1).drop_last() =~= tviews.take(i as int));
            assert(tviews.take(i as int + 1).last() == tviews[i as int]);
            assert(entries_chars(tviews.take(i as int + 1)) == Result::<
                Seq<Seq<char>>,
                FingerprintError,
            >::Ok(str_views(entries@)));
        }
        i += 1;
    }
    proof {
        assert(tviews.take(tviews.len() as int) =~= tviews);
    }
    let out = join_parts(&entries, "\n");
    Ok(out)
}

} // verus!
