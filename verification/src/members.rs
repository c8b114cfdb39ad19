use vstd::prelude::*;
use vstd::relations::{sorted_by, strongly_connected, transitive};
use vstd::string::{StrSliceExecFns, StringExecFns};
use crate::digest::{fingerprint_object, spec_fingerprint};
use crate::model::{
    Backend, FingerprintError, MemberRecord, result_chars, wf_object, wf_record, wf_records,
};
use crate::sorting::{lemma_stable_insert_at, lemma_stable_sort_sorted, stable_sort};
use crate::text::{lex_le, lemma_lex_le_total, lemma_lex_le_trans, str_lex_le};

verus! {

/// Members are emitted in ascending name order, never in disk order.
pub open spec fn record_order() -> spec_fn(MemberRecord, MemberRecord) -> bool {
    |a: MemberRecord, b: MemberRecord| lex_le(a.name@, b.name@)
}

pub proof fn lemma_record_order_well()
    ensures
        transitive(record_order()),
        strongly_connected(record_order()),
{
    assert forall|x: MemberRecord, y: MemberRecord, z: MemberRecord|
        #[trigger] record_order()(x, y) && #[trigger] record_order()(y, z) implies record_order()(
        x,
        z,
    ) by {
        lemma_lex_le_trans(x.name@, y.name@, z.name@);
    }
    assert forall|x: MemberRecord, y: MemberRecord|
        true implies #[trigger] record_order()(x, y) || #[trigger] record_order()(y, x) by {
        lemma_lex_le_total(x.name@, y.name@);
    }
}

/// The output block of one member: nothing for a member that is not an
/// object; else its name and its fingerprint, each newline-terminated.
pub open spec fn member_block(r: MemberRecord, backend: Backend) -> Result<
    Seq<char>,
    FingerprintError,
> {
    match r.object {
        Option::None => Ok(seq![]),
        Option::Some(o) => match spec_fingerprint(o, backend) {
            Err(e) => Err(e),
            Ok(d) => Ok(r.name@ + "\n"@ + d + "\n"@),
        },
    }
}

pub open spec fn blocks_chars(rs: Seq<MemberRecord>, backend: Backend) -> Result<
    Seq<char>,
    FingerprintError,
>
    decreases rs.len(),
{
    if rs.len() == 0 {
        Ok(seq![])
    } else {
        match blocks_chars(rs.drop_last(), backend) {
            Err(e) => Err(e),
            Ok(ts) => match member_block(rs.last(), backend) {
                Err(e) => Err(e),
                Ok(t) => Ok(ts + t),
            },
        }
    }
}

/// The whole run's member output: blocks in ascending member-name
/// order, or the first processed member's stage error.
pub open spec fn spec_output(rs: Seq<MemberRecord>, backend: Backend) -> Result<
    Seq<char>,
    FingerprintError,
> {
    blocks_chars(stable_sort(rs, record_order()), backend)
}

pub proof fn lemma_blocks_chars_err(rs: Seq<MemberRecord>, backend: Backend, i: int)
    requires
        0 <= i < rs.len(),
        blocks_chars(rs.take(i), backend) is Ok,
        member_block(rs[i], backend) is Err,
    ensures
        blocks_chars(rs, backend) == Result::<Seq<char>, FingerprintError>::Err(
            member_block(rs[i], backend)->Err_0,
        ),
    decreases rs.len(),
{
    if i == rs.len() - 1 {
        assert(rs.drop_last() =~= rs.take(i));
    } else {
        assert(rs.drop_last().take(i) =~= rs.take(i));
        assert(rs.drop_last()[i] == rs[i]);
        lemma_blocks_chars_err(rs.drop_last(), backend, i);
    }
}

/// Gives the positions of the records in member-name order.
pub fn sorted_record_indices(rs: &Vec<MemberRecord>) -> (r: Vec<usize>)
    ensures
        r@.len() == stable_sort(rs@, record_order()).len(),
        forall|t: int| 0 <= t < r@.len() ==> (#[trigger] r@[t]) < rs@.len(),
        forall|t: int|
            0 <= t < r@.len() ==> rs@[r@[t] as int] == stable_sort(rs@, record_order())[t],
{
    proof {
        lemma_record_order_well();
    }
    let mut out: Vec<usize> = Vec::new();
    let mut i: usize = 0;
    while i < rs.len()
        invariant
            i <= rs@.len(),
            out@.map_values(|k: usize| rs@[k as int]) == stable_sort(
                rs@.take(i as int),
                record_order(),
            ),
            forall|t: int| 0 <= t < out@.len() ==> (#[trigger] out@[t]) < rs@.len(),
            transitive(record_order()),
            strongly_connected(record_order()),
        decreases rs@.len() - i,
    {
        let ghost mapped = out@.map_values(|k: usize| rs@[k as int]);
        proof {
            lemma_stable_sort_sorted(rs@.take(i as int), record_order());
        }
        let mut j: usize = out.len();
        while j > 0 && !str_lex_le(rs[out[j - 1]].name.as_str(), rs[i].name.as_str())
            invariant
                j <= out@.len(),
                i < rs@.len(),
                mapped == out@.map_values(|k: usize| rs@[k as int]),
                sorted_by(mapped, record_order()),
                forall|t: int| 0 <= t < out@.len() ==> (#[trigger] out@[t]) < rs@.len(),
                forall|k: int|
                    j <= k < mapped.len() ==> !(#[trigger] record_order()(
                        mapped[k],
                        rs@[i as int],
                    )),
            decreases j,
        {
            j -= 1;
        }
        let ghost x = rs@[i as int];
        proof {
            assert forall|k: int| 0 <= k < j implies #[trigger] record_order()(mapped[k], x) by {
                assert(record_order()(mapped[j - 1], x));
                if k < j - 1 {
                    assert(record_order()(mapped[k], mapped[j - 1]));
                    lemma_lex_le_trans(mapped[k].name@, mapped[j - 1].name@, x.name@);
                }
            }
            assert(j == mapped.len() || !record_order()(mapped[j as int], x));
            lemma_stable_insert_at(mapped, x, record_order(), j as int);
        }
        let ghost prev = out@;
        out.insert(j, i);
        proof {
            assert(out@ =~= prev.insert(j as int, i));
            assert(out@.map_values(|k: usize| rs@[k as int]) =~= mapped.take(j as int) + seq![x]
                + mapped.skip(j as int)) by {
                prev.insert_ensures(j as int, i);
            }
            assert(rs@.take(i as int + 1).drop_last() =~= rs@.take(i as int));
            assert(rs@.take(i as int + 1).last() == rs@[i as int]);
            assert(out@.map_values(|k: usize| rs@[k as int]) == stable_sort(
                rs@.take(i as int + 1),
                record_order(),
            ));
        }
        i += 1;
    }
    proof {
        assert(rs@.take(rs@.len() as int) =~= rs@);
        let mapped = out@.map_values(|k: usize| rs@[k as int]);
        assert(mapped == stable_sort(rs@, record_order()));
        assert forall|t: int| 0 <= t < out@.len() implies rs@[out@[t] as int] == stable_sort(
            rs@,
            record_order(),
        )[t] by {
            assert(mapped[t] == rs@[out@[t] as int]);
        }
    }
    out
}

/// Processes an archive's members strictly in ascending name order:
/// members that are not objects are skipped, each object member
/// contributes one block, and the first stage error aborts the run.
pub fn fingerprint_members(records: &Vec<MemberRecord>, backend: Backend) -> (r: Result<
    String,
    FingerprintError,
>)
    requires
        wf_records(records@),
    ensures
        result_chars(r) == spec_output(records@, backend),
{
    let ghost rsorted = stable_sort(records@, record_order());
    let idxs = sorted_record_indices(records);
    let mut out = String::new();
    proof {
        assert(rsorted.take(0) =~= Seq::<MemberRecord>::empty());
        assert(out@ =~= Seq::<char>::empty());
        assert(blocks_chars(rsorted.take(0), backend) == Result::<
            Seq<char>,
            FingerprintError,
        >::Ok(out@));
    }
    let mut k: usize = 0;
    while k < idxs.len()
        invariant
            k <= idxs@.len(),
            idxs@.len() == rsorted.len(),
            rsorted == stable_sort(records@, record_order()),
            wf_records(records@),
            forall|t: int| 0 <= t < idxs@.len() ==> (#[trigger] idxs@[t]) < records@.len(),
            forall|t: int| 0 <= t < idxs@.len() ==> records@[idxs@[t] as int] == rsorted[t],
            blocks_chars(rsorted.take(k as int), backend) == Result::<
                Seq<char>,
                FingerprintError,
            >::Ok(out@),
        decreases idxs@.len() - k,
    {
        let rec = &records[idxs[k]];
        proof {
            assert(*rec == rsorted[k as int]);
            assert(wf_record(records@[idxs@[k as int] as int]));
        }
        let ghost prev = out@;
        match &rec.object {
            Option::None => {
                proof {
                    assert(member_block(rsorted[k as int], backend) == Result::<
                        Seq<char>,
                        FingerprintError,
                    >::Ok(Seq::<char>::empty()));
                }
            },
            Option::Some(o) => {
                match fingerprint_object(o, backend) {
                    Ok(d) => {
                        out.append(rec.name.as_str());
                        out.append("\n");
                        out.append(d.as_str());
                        out.append("\n");
                        proof {
                            assert(member_block(rsorted[k as int], backend) == Result::<
                                Seq<char>,
                                FingerprintError,
                            >::Ok(rec.name@ + "\n"@ + d@ + "\n"@));
                            assert(out@ =~= prev + (rec.name@ + "\n"@ + d@ + "\n"@));
                        }
                    },
                    Err(e) => {
                        proof {
                            assert(member_block(rsorted[k as int], backend) == Result::<
                                Seq<char>,
                                FingerprintError,
                            >::Err(e));
                            lemma_blocks_chars_err(rsorted, backend, k as int);
                        }
                        return Err(e);
                    },
                }
            },
        }
        proof {
            assert(rsorted.take(k as int + 1).drop_last() =~= rsorted.take(k as int));
            assert(rsorted.take(k as int + 1).last() == rsorted[k as int]);
            assert(blocks_chars(rsorted.take(k as int + 1), backend) == Result::<
                Seq<char>,
                FingerprintError,
            >::Ok(out@));
        }
        k += 1;
    }
    proof {
        assert(rsorted.take(rsorted.len() as int) =~= rsorted);
    }
    Ok(out)
}

/// The fixed line reported when the input is not an archive.
pub fn expected_archive_message() -> (r: String)
    ensures
        r@ == "Expected archive file."@,
{
    String::from_str("Expected archive file.")
}

} // verus!
