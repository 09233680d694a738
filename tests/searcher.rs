use project_matcher::names::decimal_text;
use project_matcher::{hill_climb, keep_better, pick_best, run_restarts, search, Candidate, PrefGrid, TableError};
use rand::rngs::mock::StepRng;
use rand::rngs::StdRng;
use rand::SeedableRng;

const TABLE: &str = ",A,B,C,D\nA,,x,,x\nB,x,,x,x\nC,x,x,,\nD,,x,,\n";

fn grid() -> PrefGrid {
    PrefGrid::from_csv(TABLE.as_bytes()).unwrap()
}

fn strings(v: &[&str]) -> Vec<String> {
    v.iter().map(|s| s.to_string()).collect()
}

#[test]
fn test1() {
    let prefs = grid();
    assert_eq!(prefs.all_people(), strings(&["A", "B", "C", "D"]));
    assert!(!prefs.likes("A", "A"));
    assert!(prefs.likes("A", "B"));
    assert!(!prefs.likes("A", "C"));
    assert!(prefs.likes("A", "D"));
    assert!(prefs.likes("B", "A"));
    assert!(!prefs.likes("B", "B"));
    assert!(prefs.likes("B", "C"));
    assert!(prefs.likes("B", "D"));
    assert!(prefs.likes("C", "A"));
    assert!(prefs.likes("C", "B"));
    assert!(!prefs.likes("C", "C"));
    assert!(!prefs.likes("C", "D"));
    assert!(!prefs.likes("D", "A"));
    assert!(prefs.likes("D", "B"));
    assert!(!prefs.likes("D", "C"));
    assert!(!prefs.likes("D", "D"));

    let mut my_rng = StepRng::new(2, 1);
    let candidate = Candidate::new(&prefs.all_people(), 4, &mut my_rng);
    assert_eq!(
        format!("{:?}", candidate).as_str(),
        r#"Candidate { projects: ["A", "B", "C", "D"], members: [["A"], ["D"], ["C"], ["B"]] }"#
    );
    assert_eq!(candidate.score(&prefs), 2);
}

#[test]
fn report_of_scenario() {
    let prefs = grid();
    let candidate = Candidate::new(&prefs.all_people(), 4, &mut StepRng::new(2, 1));
    assert_eq!(candidate.report(&prefs), "A: A\nB: D\nC: C\nD: B\nScore: 2");
}

#[test]
fn orders_fill_teams_from_the_back() {
    let c = Candidate::from_orders(
        strings(&["D", "B", "A", "C", "E"]),
        strings(&["A", "B", "C", "D", "E"]),
        3,
    );
    assert_eq!(
        format!("{:?}", c),
        r#"Candidate { projects: ["A", "B", "D"], members: [["E", "D"], ["C", "B"], ["A"]] }"#
    );
    let c = Candidate::from_orders(
        strings(&["B", "A"]),
        strings(&["P", "Q", "R", "S", "T", "U", "V"]),
        2,
    );
    assert_eq!(
        format!("{:?}", c),
        r#"Candidate { projects: ["A", "B"], members: [["V", "U", "T", "S"], ["R", "Q", "P"]] }"#
    );
}

#[test]
fn construction_is_balanced_partition() {
    let people = strings(&["a", "b", "c", "d", "e", "f", "g"]);
    let mut rng = StdRng::seed_from_u64(7);
    let c = Candidate::new(&people, 3, &mut rng);
    let text = format!("{:?}", c);
    for p in &people {
        assert_eq!(text.matches(&format!("\"{}\"", p)).count() >= 1, true);
    }
    let prefs = PrefGrid::from_csv(",a,b,c,d,e,f,g\n".as_bytes()).unwrap();
    let report = c.report(&prefs);
    let lines: Vec<&str> = report.lines().collect();
    assert_eq!(lines.len(), 4);
    let sizes: Vec<usize> = lines[..3].iter().map(|l| l.split(' ').count() - 1).collect();
    assert_eq!(sizes, vec![3, 2, 2]);
    let mut members: Vec<&str> = lines[..3].iter().flat_map(|l| l.split(' ').skip(1)).collect();
    members.sort();
    assert_eq!(members, vec!["a", "b", "c", "d", "e", "f", "g"]);
    let mut projects: Vec<&str> = lines[..3].iter().map(|l| l.split(':').next().unwrap()).collect();
    let sorted = {
        let mut p = projects.clone();
        p.sort();
        p
    };
    assert_eq!(projects, sorted);
    projects.dedup();
    assert_eq!(projects.len(), 3);
    assert_eq!(lines[3], "Score: 0");
}

#[test]
fn same_seed_same_candidate() {
    let people = strings(&["a", "b", "c", "d", "e", "f"]);
    let one = Candidate::new(&people, 2, &mut StdRng::seed_from_u64(11));
    let two = Candidate::new(&people, 2, &mut StdRng::seed_from_u64(11));
    assert_eq!(format!("{:?}", one), format!("{:?}", two));
    let mut a = one.duplicate();
    let mut b = two.duplicate();
    let mut r1 = StdRng::seed_from_u64(3);
    let mut r2 = StdRng::seed_from_u64(3);
    for _ in 0..20 {
        a.mutate(&mut r1);
        b.mutate(&mut r2);
    }
    assert_eq!(format!("{:?}", a), format!("{:?}", b));
}

#[test]
fn swap_trades_last_members() {
    let prefs = grid();
    let mut c = Candidate::new(&prefs.all_people(), 4, &mut StepRng::new(2, 1));
    c.swap_last(1, 3);
    assert_eq!(
        format!("{:?}", c),
        r#"Candidate { projects: ["A", "B", "C", "D"], members: [["A"], ["B"], ["C"], ["D"]] }"#
    );
    assert_eq!(c.score(&prefs), 0);
    c.swap_last(2, 2);
    assert_eq!(c.score(&prefs), 0);
}

#[test]
fn mutation_keeps_partition_and_moves_score_little() {
    let prefs = grid();
    let mut c = Candidate::new(&prefs.all_people(), 2, &mut StdRng::seed_from_u64(5));
    let mut rng = StdRng::seed_from_u64(9);
    for _ in 0..50 {
        let before = c.score(&prefs) as i64;
        c.mutate(&mut rng);
        let after = c.score(&prefs) as i64;
        assert!((after - before).abs() <= 2);
        let report = c.report(&prefs);
        let lines: Vec<&str> = report.lines().collect();
        let mut members: Vec<&str> = lines[..2].iter().flat_map(|l| l.split(' ').skip(1)).collect();
        assert_eq!(lines[0].split(' ').count() - 1, 2);
        assert_eq!(lines[1].split(' ').count() - 1, 2);
        members.sort();
        assert_eq!(members, vec!["A", "B", "C", "D"]);
    }
}

#[test]
fn tie_keeps_current() {
    let prefs = grid();
    let current = Candidate::from_orders(strings(&["A", "B"]), strings(&["A", "B", "C", "D"]), 2);
    let same_score = Candidate::from_orders(strings(&["A", "B"]), strings(&["B", "A", "D", "C"]), 2);
    assert_eq!(current.score(&prefs), same_score.score(&prefs));
    let kept = keep_better(current.duplicate(), same_score.duplicate(), &prefs);
    assert_eq!(format!("{:?}", kept), format!("{:?}", current));
    let better = Candidate::from_orders(strings(&["A", "B"]), strings(&["A", "D", "B", "C"]), 2);
    assert_eq!(current.score(&prefs), 2);
    assert_eq!(better.score(&prefs), 4);
    let kept = keep_better(current, better.duplicate(), &prefs);
    assert_eq!(format!("{:?}", kept), format!("{:?}", better));
}

#[test]
fn hill_climb_never_loses_score() {
    let prefs = grid();
    let start = Candidate::new(&prefs.all_people(), 2, &mut StdRng::seed_from_u64(1));
    let before = start.score(&prefs);
    let end = hill_climb(start, &prefs, 40, &mut StdRng::seed_from_u64(2));
    assert!(end.score(&prefs) >= before);
}

#[test]
fn zero_mutations_returns_start() {
    let prefs = grid();
    let start = Candidate::new(&prefs.all_people(), 3, &mut StdRng::seed_from_u64(4));
    let text = format!("{:?}", start);
    let end = hill_climb(start, &prefs, 0, &mut StdRng::seed_from_u64(8));
    assert_eq!(format!("{:?}", end), text);

    let initial = Candidate::new(&prefs.all_people(), 4, &mut StepRng::new(2, 1));
    let report = search(&prefs, 4, 1, 0, &mut StepRng::new(2, 1));
    assert_eq!(report, initial.report(&prefs));
}

#[test]
fn best_of_tries_beats_single_restart() {
    let prefs = grid();
    for seed in 0..10u64 {
        let mut single_rng = StdRng::seed_from_u64(seed);
        let start = Candidate::new(&prefs.all_people(), 2, &mut single_rng);
        let single = hill_climb(start, &prefs, 5, &mut single_rng);
        let finals = run_restarts(&prefs, 2, 4, 5, &mut StdRng::seed_from_u64(seed));
        assert_eq!(finals.len(), 4);
        assert_eq!(format!("{:?}", finals[0]), format!("{:?}", single));
        let best = &finals[pick_best(&finals, &prefs)];
        assert!(best.score(&prefs) >= single.score(&prefs));
    }
}

#[test]
fn search_reports_a_full_assignment() {
    let prefs = grid();
    let report = search(&prefs, 2, 5, 20, &mut StdRng::seed_from_u64(21));
    let lines: Vec<&str> = report.lines().collect();
    assert_eq!(lines.len(), 3);
    assert!(lines[2].starts_with("Score: "));
    let mut members: Vec<&str> = lines[..2].iter().flat_map(|l| l.split(' ').skip(1)).collect();
    members.sort();
    assert_eq!(members, vec!["A", "B", "C", "D"]);
    let finals = run_restarts(&prefs, 2, 5, 20, &mut StdRng::seed_from_u64(21));
    assert_eq!(finals[pick_best(&finals, &prefs)].report(&prefs), report);
}

#[test]
fn score_with_two_digits() {
    let mut text = String::from(",p0,p1,p2,p3,p4,p5,p6,p7,p8,p9,p10,p11\n");
    for i in 0..12 {
        text.push_str(&format!("p{},1,1,1,1,1,1,1,1,1,1,1,1\n", i));
    }
    let prefs = PrefGrid::from_csv(text.as_bytes()).unwrap();
    let c = Candidate::new(&prefs.all_people(), 1, &mut StdRng::seed_from_u64(0));
    assert_eq!(c.score(&prefs), 12);
    assert!(c.report(&prefs).ends_with("\nScore: 12"));
}

#[test]
fn empty_header_cells_are_skipped() {
    let prefs = PrefGrid::from_csv(",A,,B\nX,1,1,1\nY,,1,\n".as_bytes()).unwrap();
    assert_eq!(prefs.all_people(), strings(&["A", "B", "X", "Y"]));
    assert!(prefs.likes("X", "A"));
    assert!(prefs.likes("X", "B"));
    assert!(!prefs.likes("X", ""));
    assert!(!prefs.likes("Y", "A"));
    assert!(!prefs.likes("Y", "B"));
    assert!(!prefs.likes("A", "B"));
    assert!(!prefs.likes("X", "Z"));
}

#[test]
fn ragged_table_is_rejected() {
    let r = PrefGrid::from_csv(",A,B\nX,1\n".as_bytes());
    assert!(matches!(r, Err(TableError::Csv(_))));
}

#[test]
fn table_rows_build_the_grid() {
    let table = vec![strings(&["", "A", "B"]), strings(&["A", "", "y"]), strings(&["B", "y", "y"])];
    let prefs = PrefGrid::from_table(&table);
    assert_eq!(prefs.all_people(), strings(&["A", "B"]));
    assert!(!prefs.likes("A", "A"));
    assert!(prefs.likes("A", "B"));
    assert!(prefs.likes("B", "A"));
    assert!(prefs.likes("B", "B"));
    let empty = PrefGrid::from_table(&Vec::new());
    assert_eq!(empty.all_people().len(), 0);
}

#[test]
fn earliest_best_wins_ties() {
    let prefs = grid();
    let two = Candidate::from_orders(strings(&["A", "B"]), strings(&["A", "B", "C", "D"]), 2);
    let four = Candidate::from_orders(strings(&["A", "B"]), strings(&["A", "D", "B", "C"]), 2);
    let also_four = Candidate::from_orders(strings(&["A", "B"]), strings(&["D", "A", "B", "C"]), 2);
    assert_eq!(also_four.score(&prefs), 4);
    let finals = vec![two.duplicate(), four.duplicate(), also_four.duplicate(), two];
    assert_eq!(pick_best(&finals, &prefs), 1);
    let finals = vec![also_four, four];
    assert_eq!(pick_best(&finals, &prefs), 0);
}

#[test]
fn malformed_csv_gives_no_grid() {
    assert!(PrefGrid::from_csv(",A,B\nX,1,1,1\n".as_bytes()).is_err());
    assert!(PrefGrid::from_csv(b",A\n\xff,1\n").is_err());
    assert!(PrefGrid::from_csv(b"").is_ok());
}

#[test]
fn decimal_digits() {
    assert_eq!(decimal_text(0), "0");
    assert_eq!(decimal_text(7), "7");
    assert_eq!(decimal_text(10), "10");
    assert_eq!(decimal_text(90210), "90210");
    assert_eq!(decimal_text(usize::MAX), usize::MAX.to_string());
}

#[test]
fn search_projects_ascending() {
    let prefs = grid();
    let report = search(&prefs, 3, 3, 10, &mut StdRng::seed_from_u64(99));
    let names: Vec<&str> = report.lines().take(3).map(|l| l.split(':').next().unwrap()).collect();
    let mut sorted = names.clone();
    sorted.sort();
    sorted.dedup();
    assert_eq!(names, sorted);
}

#[test]
fn larger_budget_never_scores_lower() {
    let prefs = grid();
    for seed in 0..5u64 {
        let mut last = 0usize;
        for m in 0..12usize {
            let report = search(&prefs, 2, 1, m, &mut StdRng::seed_from_u64(seed));
            let score: usize = report.lines().last().unwrap()["Score: ".len()..].parse().unwrap();
            assert!(score >= last);
            last = score;
        }
    }
}
