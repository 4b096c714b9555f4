use motion_space::motion_input::{
    make_post_input, InputAction, InputError, InputState, Interaction, InteractionType,
    MotionInput, PostInput, UserInput,
};
use motion_space::SCALE;

fn prints(acts: &[InputAction]) -> Vec<String> {
    acts.iter()
        .filter_map(|a| match a {
            InputAction::Print(m) => Some(m.clone()),
            _ => None,
        })
        .collect()
}

#[test]
fn set_user_announces_and_remembers() {
    let mut st = InputState::new();
    let (acts, quit) = st.step("u alice");
    assert!(!quit);
    assert_eq!(acts.len(), 2);
    match &acts[0] {
        InputAction::SendUser(u) => assert_eq!(u.id, "alice"),
        other => panic!("expected the user announcement, got {:?}", other),
    }
    assert_eq!(prints(&acts), vec!["Current user: alice"]);
    assert_eq!(st.current_user.as_deref(), Some("alice"));
}

#[test]
fn a_known_user_is_not_announced_again() {
    let mut st = InputState::new();
    let _ = st.step("u alice");
    let (acts, _) = st.step("s alice");
    assert_eq!(acts.len(), 1);
    assert_eq!(prints(&acts), vec!["Current user: alice"]);
}

#[test]
fn post_goes_to_the_current_user() {
    let mut st = InputState::new();
    let _ = st.step("u bob");
    let (acts, quit) = st.step("p hello out there");
    assert!(!quit);
    assert_eq!(acts.len(), 2);
    match &acts[0] {
        InputAction::SendPost { user_id, text } => {
            assert_eq!(user_id, "bob");
            assert_eq!(text, "hello out there");
        }
        other => panic!("expected the post, got {:?}", other),
    }
    assert_eq!(prints(&acts), vec!["Posted as user: bob"]);
}

#[test]
fn post_without_a_current_user_complains() {
    let mut st = InputState::new();
    let (acts, _) = st.step("p hello");
    assert_eq!(prints(&acts), vec!["No current user..."]);
    let (acts2, _) = st.step("p   ");
    assert_eq!(prints(&acts2), vec!["Usage: p <text>"]);
}

#[test]
fn colon_form_posts_as_the_named_user() {
    let mut st = InputState::new();
    let (acts, _) = st.step("carol: good morning");
    assert_eq!(acts.len(), 3);
    assert!(matches!(&acts[0], InputAction::SendUser(u) if u.id == "carol"));
    assert!(
        matches!(&acts[1], InputAction::SendPost { user_id, text } if user_id == "carol" && text == "good morning")
    );
    // the colon form does not change the current user
    assert!(st.current_user.is_none());
}

#[test]
fn bare_text_posts_as_the_current_user() {
    let mut st = InputState::new();
    let _ = st.step("u dave");
    let (acts, _) = st.step("just some words");
    assert!(
        matches!(&acts[0], InputAction::SendPost { user_id, text } if user_id == "dave" && text == "just some words")
    );
}

#[test]
fn interaction_post_command_builds_the_event() {
    let mut st = InputState::new();
    let (acts, _) = st.step("i post P7 u9 0.25");
    assert_eq!(acts.len(), 2);
    assert!(matches!(&acts[0], InputAction::SendUser(u) if u.id == "u9"));
    match &acts[1] {
        InputAction::SendInteraction(i) => {
            assert!(matches!(i.interaction_type, InteractionType::PostToUser));
            assert_eq!(i.src_id, "P7");
            assert_eq!(i.dst_id, "u9");
            assert_eq!(i.alpha, 250_000);
        }
        other => panic!("expected the interaction, got {:?}", other),
    }
}

#[test]
fn interaction_user_command_announces_both_sides() {
    let mut st = InputState::new();
    let (acts, _) = st.step("i user a b");
    assert_eq!(acts.len(), 3);
    assert!(matches!(&acts[0], InputAction::SendUser(u) if u.id == "a"));
    assert!(matches!(&acts[1], InputAction::SendUser(u) if u.id == "b"));
    match &acts[2] {
        InputAction::SendInteraction(i) => {
            assert!(matches!(i.interaction_type, InteractionType::UserToUser));
            assert_eq!(i.alpha, SCALE / 2);
        }
        other => panic!("expected the interaction, got {:?}", other),
    }
}

#[test]
fn an_unparsable_alpha_falls_back_to_half() {
    let mut st = InputState::new();
    let (acts, _) = st.step("i post p u nonsense");
    match &acts[1] {
        InputAction::SendInteraction(i) => assert_eq!(i.alpha, 500_000),
        other => panic!("expected the interaction, got {:?}", other),
    }
    let mut st2 = InputState::new();
    let (acts2, _) = st2.step("i post p u 2.5");
    match &acts2[1] {
        InputAction::SendInteraction(i) => assert_eq!(i.alpha, 2_500_000),
        other => panic!("expected the interaction, got {:?}", other),
    }
    let mut st3 = InputState::new();
    let (acts3, _) = st3.step("i post p u -0.125");
    match &acts3[1] {
        InputAction::SendInteraction(i) => assert_eq!(i.alpha, -125_000),
        other => panic!("expected the interaction, got {:?}", other),
    }
}

#[test]
fn usage_lines_cover_malformed_commands() {
    let mut st = InputState::new();
    assert_eq!(prints(&st.step("u").0), vec!["Usage: u <id>"]);
    assert_eq!(prints(&st.step("s").0), vec!["Usage: s <id>"]);
    assert_eq!(prints(&st.step("i").0), vec!["Usage: i post|user ..."]);
    assert_eq!(prints(&st.step("i what").0), vec!["Usage: i post|user ..."]);
    assert_eq!(
        prints(&st.step("i post onlyone").0),
        vec!["Usage: i post <post_id> <user_id> [alpha]"]
    );
    assert_eq!(
        prints(&st.step("i user onlyone").0),
        vec!["Usage: i user <src_id> <dst_id> [alpha]"]
    );
    assert_eq!(prints(&st.step(" : text").0), vec!["Usage: <user_id>: <text>"]);
}

#[test]
fn help_and_quit_and_blank_lines() {
    let mut st = InputState::new();
    let (acts, quit) = st.step("?");
    assert!(!quit);
    assert_eq!(acts.len(), 1);
    assert!(prints(&acts)[0].starts_with("Commands: "));
    let (acts_h, _) = st.step("help");
    assert_eq!(prints(&acts_h), prints(&acts));
    let (empty_acts, q1) = st.step("   ");
    assert!(empty_acts.is_empty() && !q1);
    let (qa, q2) = st.step("q");
    assert!(qa.is_empty() && q2);
    let (qb, q3) = st.step(" Q ");
    assert!(qb.is_empty() && q3);
}

#[test]
fn fresh_post_ids_carry_the_prefix() {
    let p = make_post_input("u1", "text here");
    assert!(p.id.starts_with("post-"));
    assert_eq!(p.user_id, "u1");
    assert_eq!(p.text, "text here");
}

#[test]
fn input_constructors_copy_their_fields() {
    let p = PostInput::new("p1", "u1", "words");
    assert_eq!((p.id.as_str(), p.user_id.as_str(), p.text.as_str()), ("p1", "u1", "words"));
    let u = UserInput::new("u7");
    assert_eq!(u.id, "u7");
    let i = Interaction {
        interaction_type: InteractionType::UserToUser,
        src_id: "a".to_string(),
        dst_id: "b".to_string(),
        alpha: SCALE,
    };
    match MotionInput::Interaction(i) {
        MotionInput::Interaction(inner) => assert_eq!(inner.alpha, SCALE),
        _ => unreachable!(),
    }
}

#[test]
fn input_error_messages_are_not_empty() {
    assert!(!InputError::InvalidInput.message().is_empty());
    assert!(!InputError::ChannelError.message().is_empty());
}

#[test]
fn alpha_accepts_bare_and_partial_decimals() {
    let mut st = InputState::new();
    let (acts, _) = st.step("i post p u 1");
    assert!(matches!(&acts[1], InputAction::SendInteraction(i) if i.alpha == 1_000_000));
    let mut st2 = InputState::new();
    let (acts2, _) = st2.step("i post p u .5");
    assert!(matches!(&acts2[1], InputAction::SendInteraction(i) if i.alpha == 500_000));
    let mut st3 = InputState::new();
    let (acts3, _) = st3.step("i post p u 1.");
    assert!(matches!(&acts3[1], InputAction::SendInteraction(i) if i.alpha == 1_000_000));
    // a lone dot carries no digits: the coefficient falls back to one half
    let mut st4 = InputState::new();
    let (acts4, _) = st4.step("i post p u .");
    assert!(matches!(&acts4[1], InputAction::SendInteraction(i) if i.alpha == 500_000));
}
