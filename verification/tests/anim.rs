use water_sort::anim::{FlowKind, PourPhase};
use water_sort::view::MovePlan;

fn plan() -> MovePlan {
    MovePlan {
        from: 1,
        to: 3,
        count: 2,
        color: 2,
        from_height_before: 4,
        to_height_before: 0,
        finalize: None,
        reveal_item: None,
        unlock_item: None,
        unplug: None,
        plug_toggled: vec![],
        unfreeze: None,
        curtains_lifted: vec![],
        safe_ticks: vec![],
        safes_opened: vec![],
        key_used: None,
        unlock_run: None,
        color_curtains_lifted: vec![],
    }
}

fn phase(kind: &FlowKind) -> Option<PourPhase> {
    match kind {
        FlowKind::Pour { phase, .. } => Some(*phase),
        _ => None,
    }
}

#[test]
fn a_pour_goes_through_its_phases_then_its_effects() {
    let kind = FlowKind::Pour { plan: plan(), phase: PourPhase::Travel };
    assert!(kind.is_busy());
    let kind = kind.step();
    assert_eq!(phase(&kind), Some(PourPhase::Stream));
    let kind = kind.step();
    assert_eq!(phase(&kind), Some(PourPhase::Return));
    let kind = kind.step();
    match &kind {
        FlowKind::Effects { plan } => assert_eq!((plan.from, plan.to, plan.count), (1, 3, 2)),
        _ => panic!("the effects follow the pour"),
    }
    let kind = kind.step();
    assert!(!kind.is_busy());
}

#[test]
fn the_intro_ends_in_idle() {
    let kind = FlowKind::Intro;
    assert!(kind.is_busy());
    let kind = kind.step();
    assert!(!kind.is_busy());
    assert!(!kind.step().is_busy());
}

#[test]
fn four_steps_end_any_animation() {
    let starts = vec![
        FlowKind::Intro,
        FlowKind::Idle,
        FlowKind::Pour { plan: plan(), phase: PourPhase::Travel },
        FlowKind::Pour { plan: plan(), phase: PourPhase::Stream },
        FlowKind::Pour { plan: plan(), phase: PourPhase::Return },
        FlowKind::Effects { plan: plan() },
    ];
    for kind in starts {
        let end = kind.step().step().step().step();
        assert!(!end.is_busy());
    }
}
