//! The crate blacklist: a set of names held in ascending order, with the
//! duplicate-add and missing-remove errors of a unique-constraint table.

use crate::text::{lemma_lex_total, lemma_lex_trans, lex_lt, str_eq, str_lt};
use vstd::prelude::*;

verus! {

/// Why a blacklist change was refused.
#[derive(Clone, Copy, PartialEq, Eq, Structural, Debug)]
pub enum BlacklistError {
    /// The crate is already on the blacklist.
    CrateAlreadyOnBlacklist,
    /// The crate is not on the blacklist.
    CrateNotOnBlacklist,
}

/// The names are strictly ascending: sorted, and free of duplicates.
pub open spec fn strictly_sorted(names: Seq<Seq<char>>) -> bool {
    forall|i: int, j: int| 0 <= i < j < names.len() ==> lex_lt(names[i], names[j])
}

/// The blacklisted crate names, kept strictly ascending.
pub struct Blacklist {
    names: Vec<String>,
}

impl Blacklist {
    /// The names on the blacklist, in their stored order.
    pub closed spec fn names(self) -> Seq<Seq<char>> {
        self.names.deep_view()
    }

    /// The stored order is strictly ascending.
    pub closed spec fn wf(self) -> bool {
        strictly_sorted(self.names.deep_view())
    }

    /// An empty blacklist.
    pub fn new() -> (r: Blacklist)
        ensures
            r.wf(),
            r.names() == Seq::<Seq<char>>::empty(),
    {
        let r = Blacklist { names: Vec::new() };
        proof {
            assert(r.names.deep_view() =~= Seq::<Seq<char>>::empty());
        }
        r
    }
}

/// Whether the given name is blacklisted.
pub fn is_blacklisted(list: &Blacklist, name: &str) -> (r: bool)
    ensures
        r == list.names().contains(name@),
{
    match position_of(list, name) {
        Some(_) => true,
        None => {
            proof {
                if list.names().contains(name@) {
                    let i = choose|i: int|
                        0 <= i < list.names().len() && list.names()[i] == name@;
                    assert(list.names()[i] != name@);
                }
            }
            false
        },
    }
}

/// The crate names on the blacklist, sorted ascending.
pub fn list_crates(list: &Blacklist) -> (r: Vec<String>)
    requires
        list.wf(),
    ensures
        r.deep_view() == list.names(),
        strictly_sorted(r.deep_view()),
{
    let n = list.names.len();
    let mut r: Vec<String> = Vec::new();
    let mut i: usize = 0;
    while i < n
        invariant
            i <= n,
            n == list.names@.len(),
            r.deep_view() == list.names.deep_view().subrange(0, i as int),
        decreases n - i,
    {
        let ghost prev = r.deep_view();
        r.push(list.names[i].clone());
        proof {
            assert(r.deep_view() =~= prev.push(list.names@[i as int]@));
            assert(list.names.deep_view().subrange(0, (i + 1) as int) =~= list.names.deep_view()
                .subrange(0, i as int).push(list.names.deep_view()[i as int]));
        }
        i += 1;
    }
    proof {
        assert(list.names.deep_view().subrange(0, n as int) =~= list.names.deep_view());
    }
    r
}

/// Adds a crate to the blacklist; a name already present is refused.
pub fn add_crate(list: &mut Blacklist, name: &str) -> (r: Result<(), BlacklistError>)
    requires
        old(list).wf(),
    ensures
        final(list).wf(),
        match r {
            Ok(()) => !old(list).names().contains(name@) && final(list).names().len() == old(
                list,
            ).names().len() + 1 && (forall|x: Seq<char>|
                #[trigger] final(list).names().contains(x) <==> (old(list).names().contains(x) || x
                    == name@)),
            Err(e) => e == BlacklistError::CrateAlreadyOnBlacklist && old(list).names().contains(
                name@,
            ) && *final(list) == *old(list),
        },
{
    let n = list.names.len();
    let i = insertion_point(&list.names, name);
    if i < n && str_eq(list.names[i].as_str(), name) {
        proof {
            assert(list.names.deep_view()[i as int] == name@);
            assert(list.names().contains(name@));
        }
        return Err(BlacklistError::CrateAlreadyOnBlacklist);
    }
    proof {
        let names = list.names.deep_view();
        if i < n {
            lemma_lex_total(names[i as int], name@);
            assert(lex_lt(name@, names[i as int]));
        }
        assert forall|j: int| 0 <= j < names.len() implies names[j] != name@ by {
            if j < i {
                if names[j] == name@ {
                    lemma_lex_irrefl(name@);
                }
            } else if j == i {
            } else {
                assert(lex_lt(names[i as int], names[j]));
                lemma_lex_trans(name@, names[i as int], names[j]);
                if names[j] == name@ {
                    lemma_lex_irrefl(name@);
                }
            }
        }
        if list.names().contains(name@) {
            let j = choose|j: int| 0 <= j < names.len() && names[j] == name@;
            assert(names[j] != name@);
        }
    }
    let ghost old_names = list.names.deep_view();
    list.names.insert(i, name.to_owned());
    proof {
        let new_names = list.names.deep_view();
        assert(new_names =~= old_names.insert(i as int, name@)) by {
            assert(list.names@ == old(list).names@.insert(i as int, list.names@[i as int]));
            assert forall|k: int| 0 <= k < new_names.len() implies new_names[k]
                == old_names.insert(i as int, name@)[k] by {
                assert(new_names[k] == list.names@[k]@);
            }
        }
        if i < n {
            lemma_lex_total(old_names[i as int], name@);
            assert(lex_lt(name@, old_names[i as int]));
        }
        assert forall|a: int, b: int| 0 <= a < b < new_names.len() implies lex_lt(
            new_names[a],
            new_names[b],
        ) by {
            if b < i {
                assert(new_names[a] == old_names[a] && new_names[b] == old_names[b]);
            } else if b == i {
                assert(new_names[a] == old_names[a]);
                assert(lex_lt(old_names[a], name@));
            } else {
                assert(new_names[b] == old_names[b - 1]);
                if a < i {
                    assert(new_names[a] == old_names[a]);
                    if a == b - 1 {
                        assert(lex_lt(old_names[a], name@));
                    } else {
                        assert(lex_lt(old_names[a], old_names[b - 1]));
                    }
                } else if a == i {
                    assert(new_names[a] == name@);
                    assert(i < n);
                    assert(lex_lt(name@, old_names[i as int]));
                    if b - 1 == i {
                    } else {
                        assert(lex_lt(old_names[i as int], old_names[b - 1]));
                        lemma_lex_trans(name@, old_names[i as int], old_names[b - 1]);
                    }
                } else {
                    assert(new_names[a] == old_names[a - 1]);
                    assert(lex_lt(old_names[a - 1], old_names[b - 1]));
                }
            }
        }
        assert forall|x: Seq<char>| #[trigger] final(list).names().contains(x) implies (old(
            list,
        ).names().contains(x) || x == name@) by {
            let k = choose|k: int| 0 <= k < new_names.len() && new_names[k] == x;
            if k < i {
                assert(old_names[k] == x);
            } else if k == i {
            } else {
                assert(old_names[k - 1] == x);
            }
        }
        assert forall|x: Seq<char>| (old(list).names().contains(x) || x == name@) implies
            #[trigger] final(list).names().contains(x) by {
            if x == name@ {
                assert(new_names[i as int] == x);
            } else {
                let k = choose|k: int| 0 <= k < old_names.len() && old_names[k] == x;
                if k < i {
                    assert(new_names[k] == x);
                } else {
                    assert(new_names[k + 1] == x);
                }
            }
        }
    }
    Ok(())
}

/// The first position whose name is not below `name`: where a new entry
/// keeps the order.
fn insertion_point(names: &Vec<String>, name: &str) -> (i: usize)
    requires
        strictly_sorted(names.deep_view()),
    ensures
        i <= names@.len(),
        forall|j: int| 0 <= j < i ==> lex_lt(names.deep_view()[j], name@),
        i < names@.len() ==> !lex_lt(names.deep_view()[i as int], name@),
{
    let n = names.len();
    let mut i: usize = 0;
    while i < n
        invariant
            i <= n,
            n == names@.len(),
            forall|j: int| 0 <= j < i ==> lex_lt(names.deep_view()[j], name@),
        decreases n - i,
    {
        if !str_lt(names[i].as_str(), name) {
            return i;
        }
        proof {
            assert(names.deep_view()[i as int] == names@[i as int]@);
        }
        i += 1;
    }
    i
}

/// Removes a crate from the blacklist; a name not present is refused.
pub fn remove_crate(list: &mut Blacklist, name: &str) -> (r: Result<(), BlacklistError>)
    requires
        old(list).wf(),
    ensures
        final(list).wf(),
        match r {
            Ok(()) => old(list).names().contains(name@) && final(list).names().len() == old(
                list,
            ).names().len() - 1 && (forall|x: Seq<char>|
                #[trigger] final(list).names().contains(x) <==> (old(list).names().contains(x) && x
                    != name@)),
            Err(e) => e == BlacklistError::CrateNotOnBlacklist && !old(list).names().contains(
                name@,
            ) && *final(list) == *old(list),
        },
{
    match position_of(list, name) {
        None => {
            proof {
                if list.names().contains(name@) {
                    let i = choose|i: int|
                        0 <= i < list.names().len() && list.names()[i] == name@;
                    assert(list.names()[i] != name@);
                }
            }
            Err(BlacklistError::CrateNotOnBlacklist)
        },
        Some(i) => {
            let ghost old_names = list.names.deep_view();
            proof {
                assert(old_names[i as int] == name@);
                assert(list.names().contains(name@));
            }
            list.names.remove(i);
            proof {
                let new_names = list.names.deep_view();
                assert(new_names =~= old_names.remove(i as int)) by {
                    assert(list.names@ == old(list).names@.remove(i as int));
                    assert forall|k: int| 0 <= k < new_names.len() implies new_names[k]
                        == old_names.remove(i as int)[k] by {
                        assert(new_names[k] == list.names@[k]@);
                    }
                }
                assert forall|x: Seq<char>| #[trigger] final(list).names().contains(x) implies (
                old(list).names().contains(x) && x != name@) by {
                    let k = choose|k: int| 0 <= k < new_names.len() && new_names[k] == x;
                    if k < i {
                        assert(old_names[k] == x);
                        if x == name@ {
                            assert(lex_lt(old_names[k], old_names[i as int]));
                            lemma_lex_irrefl(name@);
                        }
                    } else {
                        assert(old_names[k + 1] == x);
                        if x == name@ {
                            assert(lex_lt(old_names[i as int], old_names[k + 1]));
                            lemma_lex_irrefl(name@);
                        }
                    }
                }
                assert forall|x: Seq<char>| (old(list).names().contains(x) && x != name@) implies
                    #[trigger] final(list).names().contains(x) by {
                    let k = choose|k: int| 0 <= k < old_names.len() && old_names[k] == x;
                    if k < i {
                        assert(new_names[k] == x);
                    } else if k == i {
                    } else {
                        assert(new_names[k - 1] == x);
                    }
                }
            }
            Ok(())
        },
    }
}

/// The order never relates a sequence to itself.
proof fn lemma_lex_irrefl(a: Seq<char>)
    ensures
        !lex_lt(a, a),
    decreases a.len(),
{
    if a.len() > 0 {
        lemma_lex_irrefl(a.skip(1));
    }
}

fn position_of(list: &Blacklist, name: &str) -> (r: Option<usize>)
    ensures
        match r {
            Some(i) => i < list.names().len() && list.names()[i as int] == name@,
            None => forall|j: int| 0 <= j < list.names().len() ==> list.names()[j] != name@,
        },
{
    let n = list.names.len();
    let mut i: usize = 0;
    while i < n
        invariant
            i <= n,
            n == list.names@.len(),
            forall|j: int| 0 <= j < i ==> list.names.deep_view()[j] != name@,
        decreases n - i,
    {
        if str_eq(list.names[i].as_str(), name) {
            proof {
                assert(list.names.deep_view()[i as int] == name@);
            }
            return Some(i);
        }
        i += 1;
    }
    None
}

} // verus!
