use rewrapper::branch::{choose_base_branch, BaseBranch};

#[test]
fn origin_main_is_preferred() {
    assert_eq!(
        choose_base_branch(&vec!["feature", "master", "origin/main", "main", "origin/master"]),
        Some(BaseBranch::OriginMain)
    );
    assert_eq!(choose_base_branch(&vec!["origin/main"]), Some(BaseBranch::OriginMain));
}

#[test]
fn main_and_origin_master_replace_an_earlier_choice() {
    assert_eq!(choose_base_branch(&vec!["master", "main"]), Some(BaseBranch::Main));
    assert_eq!(choose_base_branch(&vec!["main", "master"]), Some(BaseBranch::Main));
    assert_eq!(
        choose_base_branch(&vec!["main", "origin/master"]),
        Some(BaseBranch::OriginMaster)
    );
    assert_eq!(choose_base_branch(&vec!["origin/master", "main"]), Some(BaseBranch::Main));
    assert_eq!(
        choose_base_branch(&vec!["origin/master", "master"]),
        Some(BaseBranch::OriginMaster)
    );
}

#[test]
fn master_is_the_last_resort() {
    assert_eq!(choose_base_branch(&vec!["topic", "master", ""]), Some(BaseBranch::Master));
}

#[test]
fn other_names_give_no_base() {
    assert_eq!(choose_base_branch(&vec!["topic", "origin/topic", "Main", "main ", ""]), None);
    assert_eq!(choose_base_branch(&Vec::new()), None);
}
