//! Which branch a document's changes are compared with.

use crate::text::{same_chars, to_chars};
use vstd::prelude::*;

verus! {

/// The branches that can serve as the base of a comparison.
#[derive(Clone, Copy, Debug, PartialEq, Eq, Structural)]
pub enum BaseBranch {
    OriginMain,
    Main,
    OriginMaster,
    Master,
}

/// The name of a base branch.
pub open spec fn branch_name(base: BaseBranch) -> Seq<char> {
    match base {
        BaseBranch::OriginMain => "origin/main"@,
        BaseBranch::Main => "main"@,
        BaseBranch::OriginMaster => "origin/master"@,
        BaseBranch::Master => "master"@,
    }
}

/// The choice after one more branch name. Once `origin/main` is seen the
/// choice is final. `main` and `origin/master` replace what was chosen
/// before; `master` is taken only when nothing was.
pub open spec fn base_after(chosen: Option<BaseBranch>, name: Seq<char>) -> Option<BaseBranch> {
    if chosen == Some(BaseBranch::OriginMain) || name == branch_name(BaseBranch::OriginMain) {
        Some(BaseBranch::OriginMain)
    } else if name == branch_name(BaseBranch::Main) {
        Some(BaseBranch::Main)
    } else if name == branch_name(BaseBranch::OriginMaster) {
        Some(BaseBranch::OriginMaster)
    } else if name == branch_name(BaseBranch::Master) && chosen is None {
        Some(BaseBranch::Master)
    } else {
        chosen
    }
}

/// The base branch among the given names, taken in order; `None` when no
/// name is one of the four.
pub open spec fn base_choice(names: Seq<Seq<char>>) -> Option<BaseBranch>
    decreases names.len(),
{
    if names.len() == 0 {
        None
    } else {
        base_after(base_choice(names.drop_last()), names.last())
    }
}

/// One of the four names that a base branch can have.
pub open spec fn is_base_name(name: Seq<char>) -> bool {
    ||| name == branch_name(BaseBranch::OriginMain)
    ||| name == branch_name(BaseBranch::Main)
    ||| name == branch_name(BaseBranch::OriginMaster)
    ||| name == branch_name(BaseBranch::Master)
}

/// A base branch is chosen exactly when one of the four names is listed,
/// it is one of the names listed, and `origin/main` is chosen whenever it
/// is listed.
pub proof fn lemma_base_choice(names: Seq<Seq<char>>)
    ensures
        base_choice(names) is Some <==> exists|i: int|
            0 <= i < names.len() && is_base_name(#[trigger] names[i]),
        base_choice(names) is Some ==> names.contains(branch_name(base_choice(names)->Some_0)),
        names.contains(branch_name(BaseBranch::OriginMain)) ==> base_choice(names) == Some(
            BaseBranch::OriginMain,
        ),
    decreases names.len(),
{
    if names.len() > 0 {
        let front = names.drop_last();
        let last_index = names.len() - 1;
        lemma_base_choice(front);
        if base_choice(front) is Some {
            let name = branch_name(base_choice(front)->Some_0);
            let i = choose|i: int| 0 <= i < front.len() && front[i] == name;
            assert(names[i] == name);
            let w = choose|i: int| 0 <= i < front.len() && is_base_name(#[trigger] front[i]);
            assert(names[w] == front[w]);
        }
        if base_choice(names) is Some && base_choice(names) != base_choice(front) {
            assert(names[last_index] == branch_name(base_choice(names)->Some_0));
        }
        if is_base_name(names[last_index]) {
            assert(base_choice(names) is Some);
        }
        if exists|i: int| 0 <= i < names.len() && is_base_name(#[trigger] names[i]) {
            let w = choose|i: int| 0 <= i < names.len() && is_base_name(#[trigger] names[i]);
            if w < front.len() {
                assert(front[w] == names[w]);
            }
        }
        if names.contains(branch_name(BaseBranch::OriginMain)) {
            let i = choose|i: int|
                0 <= i < names.len() && names[i] == branch_name(BaseBranch::OriginMain);
            if i < front.len() {
                assert(front[i] == branch_name(BaseBranch::OriginMain));
            }
        }
    }
}

/// The texts that a vector of branch names stands for.
pub open spec fn name_views<'a>(names: Seq<&'a str>) -> Seq<Seq<char>> {
    Seq::new(names.len(), |i: int| names[i]@)
}

/// Chooses the base branch among the names of a repository's branches:
/// `origin/main` where there is one; else the last `main` or
/// `origin/master` listed; else `master`.
pub fn choose_base_branch(names: &Vec<&str>) -> (r: Option<BaseBranch>)
    ensures
        r == base_choice(name_views(names@)),
{
    let origin_main = to_chars("origin/main");
    let main = to_chars("main");
    let origin_master = to_chars("origin/master");
    let master = to_chars("master");
    let ghost all = name_views(names@);
    let mut chosen: Option<BaseBranch> = None;
    let mut i: usize = 0;
    assert(all.take(0) =~= Seq::empty());
    while i < names.len()
        invariant
            i <= names.len(),
            all == name_views(names@),
            origin_main@ == "origin/main"@,
            main@ == "main"@,
            origin_master@ == "origin/master"@,
            master@ == "master"@,
            chosen == base_choice(all.take(i as int)),
            chosen != Some(BaseBranch::OriginMain),
        decreases names.len() - i,
    {
        proof {
            let upto = all.take(i + 1);
            assert(upto.drop_last() =~= all.take(i as int));
            assert(upto.last() == names[i as int]@);
        }
        let name = to_chars(names[i]);
        if same_chars(name.as_slice(), origin_main.as_slice()) {
            proof {
                lemma_origin_main_is_final(all, i + 1);
            }
            return Some(BaseBranch::OriginMain);
        }
        if same_chars(name.as_slice(), main.as_slice()) {
            chosen = Some(BaseBranch::Main);
        } else if same_chars(name.as_slice(), origin_master.as_slice()) {
            chosen = Some(BaseBranch::OriginMaster);
        } else if same_chars(name.as_slice(), master.as_slice()) && chosen.is_none() {
            chosen = Some(BaseBranch::Master);
        }
        i += 1;
    }
    assert(all.take(names.len() as int) =~= all);
    chosen
}

/// Once `origin/main` is chosen, the names that follow change nothing.
proof fn lemma_origin_main_is_final(names: Seq<Seq<char>>, n: int)
    requires
        0 <= n <= names.len(),
        base_choice(names.take(n)) == Some(BaseBranch::OriginMain),
    ensures
        base_choice(names) == Some(BaseBranch::OriginMain),
    decreases names.len() - n,
{
    if n < names.len() {
        assert(names.take(n + 1).drop_last() =~= names.take(n));
        lemma_origin_main_is_final(names, n + 1);
    } else {
        assert(names.take(n) =~= names);
    }
}

} // verus!
