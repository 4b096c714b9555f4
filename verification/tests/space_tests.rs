use motion_space::embedding::{embed_post, EMBEDDING_DIM};
use motion_space::math::VecN;
use motion_space::motion_core::{
    CoreError, MotionEntry, MotionOutput, MotionPost, MotionSpace, MotionUser,
};
use motion_space::motion_input::{Interaction, InteractionType, MotionInput, PostInput, UserInput};
use motion_space::SCALE;

fn post_input(id: &str, user: &str, text: &str) -> MotionInput {
    MotionInput::Post(PostInput::new(id, user, text))
}

#[test]
fn cold_start_post_enters_post_and_user_and_applies() {
    let mut space = MotionSpace::new(EMBEDDING_DIM);
    let (outs, status) = space.process_input(&post_input("P1", "U1", "hello world"));
    assert!(status.is_ok());
    assert_eq!(outs.len(), 3);
    match &outs[0] {
        MotionOutput::Entered(MotionEntry::Post(p)) => assert_eq!(p.id, "P1"),
        other => panic!("expected the post first, got {:?}", other),
    }
    match &outs[1] {
        MotionOutput::Entered(MotionEntry::User(u)) => {
            assert_eq!(u.id, "U1");
            assert!(u.coord.is_none());
        }
        other => panic!("expected the fresh user second, got {:?}", other),
    }
    match &outs[2] {
        MotionOutput::InteractionApplied(ir) => {
            assert_eq!(ir.src_id, "P1");
            assert_eq!(ir.dst_id, "U1");
            // the seeded user sits exactly on the post: similarity one
            assert_eq!(ir.similarity, SCALE);
            // weight = 1 - exp(-0.5 * 1.0)
            let expected = (1.0 - (-0.5f64).exp()) * 1e6;
            assert!(
                (ir.weight as f64 - expected).abs() < 1000.0,
                "weight {} expected about {}",
                ir.weight,
                expected
            );
        }
        other => panic!("expected the applied interaction last, got {:?}", other),
    }
}

#[test]
fn user_event_enters_a_bare_user() {
    let mut space = MotionSpace::new(EMBEDDING_DIM);
    let (outs, status) = space.process_input(&MotionInput::User(UserInput::new("alice")));
    assert!(status.is_ok());
    assert_eq!(outs.len(), 1);
    match &outs[0] {
        MotionOutput::Entered(MotionEntry::User(u)) => {
            assert_eq!(u.id, "alice");
            assert!(u.coord.is_none());
            assert_eq!(u.motion, 0);
        }
        other => panic!("expected the user, got {:?}", other),
    }
}

#[test]
fn known_author_is_not_entered_twice() {
    let mut space = MotionSpace::new(EMBEDDING_DIM);
    let _ = space.process_input(&MotionInput::User(UserInput::new("U1")));
    let (outs, status) = space.process_input(&post_input("P1", "U1", "hello again"));
    assert!(status.is_ok());
    // only the post and the applied interaction: the user already exists
    assert_eq!(outs.len(), 2);
    assert!(matches!(&outs[0], MotionOutput::Entered(MotionEntry::Post(_))));
    assert!(matches!(&outs[1], MotionOutput::InteractionApplied(_)));
}

#[test]
fn user_to_user_between_fresh_users_names_first_missing_coord() {
    let mut space = MotionSpace::new(EMBEDDING_DIM);
    let _ = space.process_input(&MotionInput::User(UserInput::new("u1")));
    let _ = space.process_input(&MotionInput::User(UserInput::new("u2")));
    let r = space.apply_user_to_user("u1", "u2", SCALE / 2);
    match r {
        Err(CoreError::CoordNotLoaded { user_id }) => assert_eq!(user_id, "u1"),
        other => panic!("expected CoordNotLoaded for the actor, got {:?}", other),
    }
}

#[test]
fn missing_post_and_missing_user_are_reported() {
    let mut space = MotionSpace::new(EMBEDDING_DIM);
    match space.apply_post_to_user("u1", "nope", SCALE / 2) {
        Err(CoreError::PostNotFound { post_id }) => assert_eq!(post_id, "nope"),
        other => panic!("expected PostNotFound, got {:?}", other),
    }
    match space.apply_user_to_user("ghost", "u2", SCALE / 2) {
        Err(CoreError::UserNotFound { user_id }) => assert_eq!(user_id, "ghost"),
        other => panic!("expected UserNotFound, got {:?}", other),
    }
}

#[test]
fn mismatched_coordinates_raise_a_math_fault() {
    let mut space = MotionSpace::new(3);
    space.enter(MotionEntry::User(MotionUser {
        id: "a".to_string(),
        coord: Some(VecN::new(vec![SCALE, 0, 0])),
        motion: 0,
    }));
    space.enter(MotionEntry::User(MotionUser {
        id: "b".to_string(),
        coord: Some(VecN::new(vec![SCALE, 0])),
        motion: 0,
    }));
    match space.apply_user_to_user("a", "b", SCALE / 2) {
        Err(CoreError::Math(motion_space::math::MathError::DimensionMismatch { left, right })) => {
            assert_eq!(left, 3);
            assert_eq!(right, 2);
        }
        other => panic!("expected a dimension mismatch, got {:?}", other),
    }
}

#[test]
fn duplicate_ids_address_the_first_entry() {
    let mut space = MotionSpace::new(2);
    space.enter(MotionEntry::Post(MotionPost::new(
        "p".to_string(),
        VecN::new(vec![SCALE, 0]),
    )));
    space.enter(MotionEntry::Post(MotionPost::new(
        "p".to_string(),
        VecN::new(vec![0, SCALE]),
    )));
    let ir = space.apply_post_to_user("u", "p", SCALE / 2).unwrap();
    // the user is seeded from the first post with that id: similarity one
    assert_eq!(ir.similarity, SCALE);
    match &space.entries[2] {
        MotionEntry::User(u) => {
            let c = u.coord.as_ref().unwrap();
            assert_eq!(c.data, vec![SCALE, 0]);
        }
        other => panic!("expected the auto-created user, got {:?}", other),
    }
}

#[test]
fn repeated_interactions_with_a_post_never_lower_similarity() {
    let mut space = MotionSpace::new(EMBEDDING_DIM);
    let (_, s1) = space.process_input(&post_input("P1", "U1", "hello world"));
    assert!(s1.is_ok());
    let (_, s2) = space.process_input(&post_input("P2", "U2", "an entirely different text"));
    assert!(s2.is_ok());
    // pull U1 toward P2 twice: the second similarity is at least the first
    let ir1 = space.apply_post_to_user("U1", "P2", SCALE / 2).unwrap();
    let ir2 = space.apply_post_to_user("U1", "P2", SCALE / 2).unwrap();
    assert!(
        ir2.similarity >= ir1.similarity,
        "similarity fell from {} to {}",
        ir1.similarity,
        ir2.similarity
    );
}

#[test]
fn motion_decays_and_gains_weight() {
    let mut space = MotionSpace::new(EMBEDDING_DIM);
    let _ = space.process_input(&post_input("P1", "U1", "hello world"));
    let m1 = match &space.entries[1] {
        MotionEntry::User(u) => u.motion,
        other => panic!("expected the user, got {:?}", other),
    };
    assert!(m1 > 0);
    let ir = space.apply_post_to_user("U1", "P1", SCALE / 2).unwrap();
    let m2 = match &space.entries[1] {
        MotionEntry::User(u) => u.motion,
        other => panic!("expected the user, got {:?}", other),
    };
    assert_eq!(m2, (m1 * 98) / 100 + ir.weight);
}

#[test]
fn empty_input_batch_terminates_cleanly() {
    let mut space = MotionSpace::new(EMBEDDING_DIM);
    let (outs, status) = space.run_inputs(&Vec::new());
    assert!(status.is_ok());
    assert!(outs.is_empty());
    assert!(space.entries.is_empty());
}

#[test]
fn interaction_batch_applies_in_order() {
    let mut space = MotionSpace::new(EMBEDDING_DIM);
    let setup = vec![
        post_input("P1", "U1", "hello world"),
        post_input("P2", "U2", "other words"),
    ];
    let (_, st) = space.run_inputs(&setup);
    assert!(st.is_ok());
    let batch = vec![
        MotionInput::Interaction(Interaction {
            interaction_type: InteractionType::PostToUser,
            src_id: "P1".to_string(),
            dst_id: "U2".to_string(),
            alpha: SCALE / 2,
        }),
        MotionInput::Interaction(Interaction {
            interaction_type: InteractionType::UserToUser,
            src_id: "U1".to_string(),
            dst_id: "U2".to_string(),
            alpha: SCALE / 4,
        }),
        MotionInput::Interaction(Interaction {
            interaction_type: InteractionType::PostToUser,
            src_id: "P2".to_string(),
            dst_id: "U1".to_string(),
            alpha: SCALE,
        }),
    ];
    let (outs, status) = space.run_inputs(&batch);
    assert!(status.is_ok());
    assert_eq!(outs.len(), 3);
    let expected = [("P1", "U2"), ("U1", "U2"), ("P2", "U1")];
    for (out, (src, dst)) in outs.iter().zip(expected.iter()) {
        match out {
            MotionOutput::InteractionApplied(ir) => {
                assert_eq!(&ir.src_id, src);
                assert_eq!(&ir.dst_id, dst);
            }
            other => panic!("expected an applied interaction, got {:?}", other),
        }
    }
}

#[test]
fn a_fault_stops_the_batch_and_keeps_prior_outputs() {
    let mut space = MotionSpace::new(EMBEDDING_DIM);
    let batch = vec![
        MotionInput::User(UserInput::new("u1")),
        MotionInput::Interaction(Interaction {
            interaction_type: InteractionType::PostToUser,
            src_id: "absent".to_string(),
            dst_id: "u1".to_string(),
            alpha: SCALE / 2,
        }),
        MotionInput::User(UserInput::new("never-reached")),
    ];
    let (outs, status) = space.run_inputs(&batch);
    assert!(matches!(status, Err(CoreError::PostNotFound { .. })));
    assert_eq!(outs.len(), 1);
    assert!(matches!(&outs[0], MotionOutput::Entered(MotionEntry::User(_))));
    assert_eq!(space.entries.len(), 1);
}

#[test]
fn entry_id_reports_either_variant() {
    let user = MotionEntry::User(MotionUser::new("alice", 2));
    assert_eq!(user.id(), "alice");
    let post = MotionEntry::Post(MotionPost::new("p9".to_string(), VecN::new(vec![0, SCALE])));
    assert_eq!(post.id(), "p9");
}

#[test]
fn embedding_is_deterministic_for_equal_text() {
    let a = embed_post("same words");
    let b = embed_post("same words");
    assert_eq!(a.data, b.data);
}

#[test]
fn core_error_messages_are_not_empty() {
    assert!(!CoreError::ChannelError.message().is_empty());
    assert!(!CoreError::UserNotFound { user_id: "u".to_string() }.message().is_empty());
    assert!(!CoreError::PostNotFound { post_id: "p".to_string() }.message().is_empty());
    assert!(!CoreError::CoordNotLoaded { user_id: "u".to_string() }.message().is_empty());
}

#[test]
fn zero_embedding_survives_normalization_failure() {
    // an empty text embeds to the zero vector: the blend is zero, its
    // normalization fails, and the update proceeds un-normalized
    let mut space = MotionSpace::new(EMBEDDING_DIM);
    let (outs, status) = space.process_input(&post_input("P0", "U0", ""));
    assert!(status.is_ok());
    assert_eq!(outs.len(), 3);
    match &space.entries[1] {
        MotionEntry::User(u) => {
            let c = u.coord.as_ref().unwrap();
            assert!(c.data.iter().all(|&x| x == 0));
            // the unit-normalized cache stayed empty: the degraded path
            assert!(c.normalized.is_none());
            assert!(u.motion > 0);
        }
        other => panic!("expected the seeded user, got {:?}", other),
    }
}
