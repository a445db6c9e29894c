use itertools::Itertools;
use matchmaker::balancer::{assemble_match, balance_teams, build_match, team_splits, Appraisal};
use matchmaker::model::Player;
use matchmaker::number::Real;
use uuid::Uuid;

fn number(x: f32) -> Real {
    Real { bits: x.to_bits() }
}

fn skill(p: &Player) -> f32 {
    f32::from_bits(p.skill.bits)
}

fn players(skills: &[f32]) -> Vec<Player> {
    skills
        .iter()
        .map(|&s| Player {
            id: Uuid::new_v4().as_u128(),
            skill: number(s),
            region: "r".to_string(),
            queued_at: Some(0),
        })
        .collect()
}

fn sum(team: &[Player]) -> f32 {
    team.iter().map(skill).sum()
}

fn stddev(xs: &[f32]) -> f32 {
    if xs.is_empty() {
        return 0.0;
    }
    let mean = xs.iter().sum::<f32>() / xs.len() as f32;
    let var = xs.iter().map(|x| (x - mean).powi(2)).sum::<f32>() / xs.len() as f32;
    var.sqrt()
}

fn spread(a: &[Player], b: &[Player]) -> f32 {
    let skill_a: Vec<f32> = a.iter().map(skill).collect();
    let skill_b: Vec<f32> = b.iter().map(skill).collect();
    stddev(&skill_a) + stddev(&skill_b)
}

fn quality_score(a: &[Player], b: &[Player]) -> f32 {
    let skill_diff = (sum(a) - sum(b)).abs() / 5.0;
    let gap_penalty = (skill_diff / 100.0).min(1.0);
    let spread_penalty = (spread(a, b) / 200.0).min(0.5);
    (1.0 - gap_penalty - spread_penalty).clamp(0.0, 1.0)
}

fn appraise(all: &[Player]) -> Vec<Appraisal> {
    let total = sum(all);
    team_splits()
        .iter()
        .map(|team| {
            let a: Vec<Player> = team.iter().map(|&i| all[i].clone()).collect();
            let b: Vec<Player> =
                (0..all.len()).filter(|i| !team.contains(i)).map(|i| all[i].clone()).collect();
            let quality = quality_score(&a, &b);
            Appraisal {
                gap: number((sum(&a) - (total - sum(&a))).abs()),
                spread: number(spread(&a, &b)),
                quality: number(quality),
                skill_gap: number((sum(&a) - sum(&b)).abs()),
            }
        })
        .collect()
}

fn balanced(all: &Vec<Player>) -> (Vec<Player>, Vec<Player>) {
    balance_teams(all, &appraise(all))
}

fn flat(gap: f32, spread: f32) -> Appraisal {
    Appraisal {
        gap: number(gap),
        spread: number(spread),
        quality: number(0.25),
        skill_gap: number(gap),
    }
}

fn ids(team: &[Player]) -> Vec<u128> {
    team.iter().map(|p| p.id).collect()
}

#[test]
fn perfect_split_has_zero_gap() {
    // Pairable into two identical teams summing to 250 each.
    let p = players(&[10.0, 20.0, 30.0, 40.0, 50.0, 50.0, 40.0, 30.0, 20.0, 10.0]);
    let (a, b) = balanced(&p);
    assert_eq!(a.len(), 5);
    assert_eq!(b.len(), 5);
    assert!((sum(&a) - sum(&b)).abs() < 1e-3, "should find the zero-gap split");
}

#[test]
fn all_equal_is_perfectly_balanced_and_top_quality() {
    let p = players(&[50.0; 10]);
    let (a, b) = balanced(&p);
    assert!((sum(&a) - sum(&b)).abs() < 1e-3);
    let q = quality_score(&a, &b);
    assert!(q > 0.99, "identical players => near-perfect quality, got {q}");
}

#[test]
fn balancer_finds_global_optimum_not_greedy() {
    // Greedy "assign largest to lighter team" would split poorly here;
    // exhaustive search must find the exact best.
    let p = players(&[1.0, 2.0, 3.0, 4.0, 100.0, 99.0, 98.0, 97.0, 96.0, 0.0]);
    let (a, b) = balanced(&p);
    let gap = (sum(&a) - sum(&b)).abs();
    // Brute-force the optimum independently to compare.
    let skills: Vec<f32> = p.iter().map(skill).collect();
    let total: f32 = skills.iter().sum();
    let best = (0..10)
        .combinations(5)
        .map(|idx| {
            let sa: f32 = idx.iter().map(|&i: &usize| skills[i]).sum();
            (sa - (total - sa)).abs()
        })
        .min_by(|x, y| x.partial_cmp(y).unwrap())
        .unwrap();
    assert!((gap - best).abs() < 1e-3, "gap {gap} must equal optimum {best}");
}

#[test]
fn quality_is_bounded_unit_interval() {
    let p = players(&[100.0, 100.0, 100.0, 100.0, 100.0, 0.0, 0.0, 0.0, 0.0, 0.0]);
    let (a, b) = balanced(&p);
    let q = quality_score(&a, &b);
    assert!((0.0..=1.0).contains(&q), "quality {q} out of range");
}

#[test]
fn even_teams_score_above_lopsided_ones() {
    let even = players(&[50.0; 10]);
    let lopsided = players(&[90.0, 90.0, 10.0, 10.0, 50.0, 90.0, 90.0, 10.0, 10.0, 50.0]);
    assert_eq!(sum(&lopsided[..5]), sum(&lopsided[5..]));
    assert!(quality_score(&even[..5], &even[5..]) > quality_score(&lopsided[..5], &lopsided[5..]));
}

#[test]
fn there_are_252_splits_in_order() {
    let splits = team_splits();
    assert_eq!(splits.len(), 252);
    assert_eq!(splits[0], vec![0, 1, 2, 3, 4]);
    assert_eq!(splits[1], vec![0, 1, 2, 3, 5]);
    assert_eq!(splits[251], vec![5, 6, 7, 8, 9]);
    for i in 1..splits.len() {
        assert!(splits[i - 1] < splits[i]);
    }
}

#[test]
fn every_team_of_five_is_a_split() {
    let splits = team_splits();
    let mut teams: usize = 0;
    for mask in 0..1024usize {
        let team: Vec<usize> = (0..10).filter(|i| mask & (1 << i) != 0).collect();
        assert_eq!(splits.contains(&team), team.len() == 5);
        if team.len() == 5 {
            teams += 1;
        }
    }
    assert_eq!(teams, 252);
}

#[test]
fn teams_partition_the_players_in_order() {
    let p = players(&[0.0; 10]);
    let mut appraisals = vec![flat(9.0, 9.0); 252];
    let splits = team_splits();
    let at = splits.iter().position(|s| *s == vec![0, 3, 4, 7, 9]).unwrap();
    appraisals[at] = flat(1.0, 50.0);
    let (a, b) = balance_teams(&p, &appraisals);
    assert_eq!(ids(&a), vec![p[0].id, p[3].id, p[4].id, p[7].id, p[9].id]);
    assert_eq!(ids(&b), vec![p[1].id, p[2].id, p[5].id, p[6].id, p[8].id]);
}

#[test]
fn equal_gaps_are_decided_by_spread_and_then_by_order() {
    let p = players(&[0.0; 10]);
    let mut appraisals = vec![flat(3.0, 8.0); 252];
    assert_eq!(ids(&balance_teams(&p, &appraisals).0), ids(&p[..5]));
    appraisals[251] = flat(3.0, 7.5);
    assert_eq!(ids(&balance_teams(&p, &appraisals).0), ids(&p[5..]));
    appraisals[0] = flat(2.5, 100.0);
    assert_eq!(ids(&balance_teams(&p, &appraisals).0), ids(&p[..5]));
    appraisals[0] = flat(f32::NAN, 0.0);
    assert_eq!(ids(&balance_teams(&p, &appraisals).0), ids(&p[5..]));
}

#[test]
fn no_split_beats_the_one_taken() {
    let p = players(&[3.5, 91.0, 17.25, 64.0, 50.0, 8.0, 77.5, 29.0, 42.0, 100.0]);
    let appraisals = appraise(&p);
    let (a, b) = balance_teams(&p, &appraisals);
    let gap = (sum(&a) - (sum(&p) - sum(&a))).abs();
    let taken = (gap, spread(&a, &b));
    for x in &appraisals {
        assert!(taken <= (f32::from_bits(x.gap.bits), f32::from_bits(x.spread.bits)));
    }
}

#[test]
fn a_match_carries_its_figures() {
    let mut p = players(&[10.0, 20.0, 30.0, 40.0, 50.0, 50.0, 40.0, 30.0, 20.0, 10.0]);
    for (i, x) in p.iter_mut().enumerate() {
        x.queued_at = Some(i as i64 * 1_000_000);
    }
    p[3].queued_at = Some(-2_500_000);
    p[6].queued_at = None;
    let appraisals = appraise(&p);
    let m = assemble_match(77, &p, 20_000_000, &appraisals);
    assert_eq!(m.id, 77);
    assert_eq!(m.team_a.len(), 5);
    assert_eq!(m.team_b.len(), 5);
    assert_eq!(m.wait_ms, 22);
    assert!(!m.cross_region);
    assert_eq!(m.skill_gap, number(0.0));
    assert_eq!(m.quality, number(quality_score(&m.team_a, &m.team_b)));
}

#[test]
fn one_player_from_elsewhere_makes_a_match_cross_region() {
    let mut p = players(&[50.0; 10]);
    p[9].region = "elsewhere".to_string();
    let appraisals = appraise(&p);
    let m = assemble_match(1, &p, 0, &appraisals);
    assert!(m.cross_region);
    assert_eq!(m.wait_ms, 0);
    assert_eq!(m.quality, number(1.0));
}

#[test]
fn built_matches_have_fresh_random_ids() {
    let p = players(&[50.0; 10]);
    let appraisals = appraise(&p);
    let first = Uuid::from_u128(build_match(p.clone(), 0, &appraisals).id);
    let second = Uuid::from_u128(build_match(p, 0, &appraisals).id);
    assert_ne!(first, second);
    assert_eq!(first.get_version_num(), 4);
    assert_eq!(second.get_version_num(), 4);
    assert_eq!(first.get_variant(), uuid::Variant::RFC4122);
}
