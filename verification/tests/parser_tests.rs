use bytie::parser::{action, action_type, behavior, del_action, number};
use bytie::parser::{Action, ActionType, Behavior, DeleteAction};

#[test]
fn test_number() {
    assert_eq!(number("123"), Ok(("", 123)));
    assert_eq!(number("123 a"), Ok((" a", 123)));

    assert!(number("abc").is_err());
}

#[test]
fn test_behavior() {
    assert_eq!(behavior(":"), Ok(("", Behavior::Until)));
    assert_eq!(behavior("+123"), Ok(("123", Behavior::Length)));
    assert_eq!(behavior(":1"), Ok(("1", Behavior::Until)));
    assert_eq!(behavior("++"), Ok(("+", Behavior::Length)));

    assert!(behavior("xx").is_err());
}

#[test]
fn test_action_type() {
    assert_eq!(action_type("d"), Ok(("", ActionType::Delete)));
    assert_eq!(action_type("d123"), Ok(("123", ActionType::Delete)));
    assert_eq!(action_type("r1"), Ok(("1", ActionType::Replace)));

    assert_eq!(action_type("add1"), Ok(("1", ActionType::Add)));
    assert_eq!(action_type("del1"), Ok(("1", ActionType::Delete)));

    assert!(action_type("aa").is_err());
    assert!(action_type("xx").is_err());
}

#[test]
fn test_action() {
    assert_eq!(
        action("d0:10"),
        Ok((
            "",
            Action {
                action_type: ActionType::Delete,
                begin: 0,
                bhvr: Some(Behavior::Until),
                end: Some(10)
            }
        ))
    );

    assert_eq!(
        action("d0"),
        Ok((
            "",
            Action {
                action_type: ActionType::Delete,
                begin: 0,
                bhvr: None,
                end: None
            }
        ))
    );

    assert_eq!(
        action("replace0"),
        Ok((
            "",
            Action {
                action_type: ActionType::Replace,
                begin: 0,
                bhvr: None,
                end: None
            }
        ))
    );
}

#[test]
fn test_del_action() {
    assert_eq!(
        del_action("0:10"),
        Ok((
            "",
            DeleteAction {
                begin: 0,
                behavior: Some(Behavior::Until),
                end: Some(10)
            }
        ))
    );

    assert_eq!(
        del_action("7+3rest"),
        Ok((
            "rest",
            DeleteAction {
                begin: 7,
                behavior: Some(Behavior::Length),
                end: Some(3)
            }
        ))
    );

    assert!(del_action("x1").is_err());
}

#[test]
fn test_action_type_from() {
    assert_eq!(ActionType::from("d"), Ok(ActionType::Delete));
    assert_eq!(ActionType::from("del"), Ok(ActionType::Delete));
    assert_eq!(ActionType::from("delete"), Ok(ActionType::Delete));
    assert_eq!(ActionType::from("a"), Ok(ActionType::Add));
    assert_eq!(ActionType::from("add"), Ok(ActionType::Add));
    assert_eq!(ActionType::from("r"), Ok(ActionType::Replace));
    assert_eq!(ActionType::from("rpl"), Ok(ActionType::Replace));
    assert_eq!(ActionType::from("replace"), Ok(ActionType::Replace));
    assert_eq!(ActionType::from("remove"), Err(()));
}

#[test]
fn test_behavior_from() {
    assert_eq!(Behavior::from(":"), Ok(Behavior::Until));
    assert_eq!(Behavior::from("+"), Ok(Behavior::Length));
    assert_eq!(Behavior::from("x"), Err(()));
    assert_eq!(Behavior::from(""), Err(()));
}
