use vstd::prelude::*;
use vstd::string::StrSliceExecFns;

verus! {

/// One extracted archive member: its name and its raw bytes.
pub struct ArchiveMember {
    pub name: String,
    pub data: Vec<u8>,
}

/// The member names the archive container lists for these bytes, when
/// they parse as an archive at all.
pub uninterp spec fn archive_member_names(data: Seq<u8>) -> Option<Seq<Seq<char>>>;

/// The bytes of the named member, when the container can extract them.
pub uninterp spec fn member_bytes(data: Seq<u8>, name: Seq<char>) -> Option<Seq<u8>>;

pub open spec fn names_view(ns: Seq<String>) -> Seq<Seq<char>> {
    ns.map_values(|s: String| s@)
}

/// Relies on goblin::Object::parse and goblin::archive::Archive::members:
/// whether the bytes parse as an archive container, and which member
/// names it lists, depend on the bytes alone.
#[verifier::external_body]
fn list_member_names(data: &[u8]) -> (r: Option<Vec<String>>)
    ensures
        r is Some <==> archive_member_names(data@) is Some,
        r is Some ==> archive_member_names(data@) == Some(names_view(r->Some_0@)),
{
    match goblin::Object::parse(data) {
        Ok(goblin::Object::Archive(a)) => Some(
            a.members().iter().map(|m| m.to_string()).collect(),
        ),
        _ => None,
    }
}

/// Relies on goblin::Object::parse and goblin::archive::Archive::extract:
/// the named member's byte slice depends on the archive bytes and the
/// name alone.
#[verifier::external_body]
fn extract_member(data: &[u8], name: &str) -> (r: Option<Vec<u8>>)
    ensures
        r is Some <==> member_bytes(data@, name@) is Some,
        r is Some ==> member_bytes(data@, name@) == Some(r->Some_0@),
{
    match goblin::Object::parse(data) {
        Ok(goblin::Object::Archive(a)) => match a.extract(name, data) {
            Ok(b) => Some(b.to_vec()),
            Err(_) => None,
        },
        _ => None,
    }
}

pub open spec fn extractable_fn(data: Seq<u8>) -> spec_fn(Seq<char>) -> bool {
    |n: Seq<char>| member_bytes(data, n) is Some
}

pub open spec fn entry_fn(data: Seq<u8>) -> spec_fn(Seq<char>) -> (Seq<char>, Seq<u8>) {
    |n: Seq<char>| (n, member_bytes(data, n)->Some_0)
}

/// The members the archive yields: each listed name whose bytes the
/// container can extract, paired with those bytes, in listed order.
pub open spec fn listed_entries(data: Seq<u8>) -> Seq<(Seq<char>, Seq<u8>)>
    recommends
        archive_member_names(data) is Some,
{
    archive_member_names(data)->Some_0.filter(extractable_fn(data)).map_values(entry_fn(data))
}

pub open spec fn members_view(ms: Seq<ArchiveMember>) -> Seq<(Seq<char>, Seq<u8>)> {
    ms.map_values(|m: ArchiveMember| (m.name@, m.data@))
}

/// Opens an archive: `None` when the bytes are not an archive container
/// (the whole operation then fails with no member output); otherwise
/// every extractable listed member with its bytes.
pub fn archive_members(data: &Vec<u8>) -> (r: Option<Vec<ArchiveMember>>)
    ensures
        r is Some <==> archive_member_names(data@) is Some,
        r is Some ==> members_view(r->Some_0@) == listed_entries(data@),
{
    let names = match list_member_names(data.as_slice()) {
        Option::Some(ns) => ns,
        Option::None => {
            return None;
        },
    };
    let ghost allnames = archive_member_names(data@)->Some_0;
    proof {
        assert(allnames == names_view(names@));
    }
    let mut out: Vec<ArchiveMember> = Vec::new();
    proof {
        assert(allnames.take(0) =~= Seq::<Seq<char>>::empty());
        assert(Seq::<Seq<char>>::empty().filter(extractable_fn(data@))
            =~= Seq::<Seq<char>>::empty()) by {
            reveal(Seq::filter);
        }
        assert(members_view(out@) =~= allnames.take(0).filter(extractable_fn(data@)).map_values(
            entry_fn(data@),
        ));
    }
    let mut i: usize = 0;
    while i < names.len()
        invariant
            i <= names@.len(),
            allnames == names_view(names@),
            allnames.len() == names@.len(),
            members_view(out@) == allnames.take(i as int).filter(
                extractable_fn(data@),
            ).map_values(entry_fn(data@)),
        decreases names@.len() - i,
    {
        proof {
            assert(allnames[i as int] == names@[i as int]@);
        }
        let ghost prev = out@;
        match extract_member(data.as_slice(), names[i].as_str()) {
            Option::Some(bytes) => {
                let nm = names[i].clone();
                out.push(ArchiveMember { name: nm, data: bytes });
                proof {
                    assert(members_view(out@) =~= members_view(prev).push(
                        (allnames[i as int], member_bytes(data@, allnames[i as int])->Some_0),
                    ));
                }
            },
            Option::None => {},
        }
        proof {
            let pred = extractable_fn(data@);
            let stk = allnames.take(i as int);
            assert(allnames.take(i as int + 1) =~= stk.push(allnames[i as int]));
            stk.lemma_filter_push(allnames[i as int], pred);
            if pred(allnames[i as int]) {
                crate::sorting::lemma_map_values_push(
                    stk.filter(pred),
                    allnames[i as int],
                    entry_fn(data@),
                );
                assert(members_view(out@) =~= allnames.take(i as int + 1).filter(
                    pred,
                ).map_values(entry_fn(data@)));
            } else {
                assert(members_view(out@) == allnames.take(i as int + 1).filter(
                    pred,
                ).map_values(entry_fn(data@)));
            }
        }
        i += 1;
    }
    proof {
        assert(allnames.take(allnames.len() as int) =~= allnames);
    }
    Some(out)
}

} // verus!
