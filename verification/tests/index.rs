use blackjack::hand::Move;
use blackjack::index::coalesce_runs;

#[test]
fn tui_coalesce_runs_finds_exact_flip() {
    let runs = coalesce_runs(-20, 20, |rc| {
        Some(if rc < 0 { Move::Hit } else { Move::Stand })
    });
    assert_eq!(runs, vec![(Move::Hit, -20, -1), (Move::Stand, 0, 20)]);
}

#[test]
fn tui_coalesce_runs_constant_is_single_run() {
    let runs = coalesce_runs(-20, 20, |_| Some(Move::Stand));
    assert_eq!(runs, vec![(Move::Stand, -20, 20)]);
}

#[test]
fn tui_coalesce_runs_three_segments() {
    let runs = coalesce_runs(-20, 20, |rc| {
        Some(if (-5..5).contains(&rc) {
            Move::Stand
        } else {
            Move::Hit
        })
    });
    assert_eq!(
        runs,
        vec![
            (Move::Hit, -20, -6),
            (Move::Stand, -5, 4),
            (Move::Hit, 5, 20),
        ]
    );
}

#[test]
fn index_coalesce_runs_finds_exact_flip() {
    let runs = coalesce_runs(-20, 20, |rc| {
        Some(if rc < 0 { Move::Hit } else { Move::Stand })
    });
    assert_eq!(runs, vec![(Move::Hit, -20, -1), (Move::Stand, 0, 20)]);
}

#[test]
fn index_coalesce_runs_constant_is_single_run() {
    let runs = coalesce_runs(-20, 20, |_| Some(Move::Stand));
    assert_eq!(runs, vec![(Move::Stand, -20, 20)]);
}

#[test]
fn index_coalesce_runs_three_segments() {
    let runs = coalesce_runs(-20, 20, |rc| {
        Some(if (-5..5).contains(&rc) {
            Move::Stand
        } else {
            Move::Hit
        })
    });
    assert_eq!(
        runs,
        vec![
            (Move::Hit, -20, -6),
            (Move::Stand, -5, 4),
            (Move::Hit, 5, 20),
        ]
    );
}
