use cooldown_planner::models::{Cooldown, Note};
use cooldown_planner::schedule::Schedule;
use cooldown_planner::template::Template;
use std::collections::HashMap;

const FALLBACK: &str = "{spell:0} Panic!";

fn rune(recharge: u64, tags: &[&str]) -> Cooldown {
    Cooldown {
        display_name: "Rune".to_string(),
        cooldown: recharge,
        group_names: tags.iter().map(|t| t.to_string()).collect(),
    }
}

fn run(text: &str, cooldowns: &[Cooldown], solved: Option<Vec<Option<usize>>>) -> String {
    let template = Template::parse(text).unwrap();
    let map = Schedule::new(template.usages(), cooldowns).assignments(solved);
    template.subst_assignments(text, map)
}

#[test]
fn single_usage_gets_the_resource() {
    let cds = vec![rune(30, &["fire"])];
    let text = r"{time:0}\n{{fire}}";
    assert_eq!(run(text, &cds, Some(vec![Some(0)])), r"{time:0}\nRune");
    assert_eq!(run(text, &cds, Some(vec![None])), r"{time:0}\nRune");
    let split = "{time:0}\n{{fire}}";
    assert_eq!(run(split, &cds, Some(vec![])), split);
}

#[test]
fn recharge_leaves_one_usage_unserved() {
    let cds = vec![rune(30, &["fire"])];
    let text = "{time:0} {{fire}}\n{time:10} {{fire}}";
    let out = run(text, &cds, Some(vec![Some(0), Some(0)]));
    let lines: Vec<&str> = out.split('\n').collect();
    assert_eq!(lines.len(), 2);
    let served = lines.iter().filter(|l| l.ends_with(" Rune")).count();
    let fallback = lines.iter().filter(|l| l.ends_with(FALLBACK)).count();
    assert_eq!(served, 1);
    assert_eq!(fallback, 1);
}

#[test]
fn malformed_timestamp_is_an_error() {
    let err = Template::parse("{time:abc}").err().unwrap();
    assert!(!err.is_empty());
    assert!(err.contains("abc"));
    let note = Note::failure(err);
    assert!(!note.error.is_empty());
    assert!(note.output.is_empty());
}

#[test]
fn explicit_weight_overrides_default() {
    let t = Template::parse("{time:0} {{fire<5>}}").unwrap();
    let u = &t.usages()[0];
    assert_eq!(u.value, 5_000_000);
    assert_eq!(u.group_names, vec!["fire".to_string()]);
    let d = Template::parse("{time:0} {{fire}}").unwrap();
    assert_eq!(d.usages()[0].value, 1_000_000);
}

#[test]
fn fractional_weight() {
    let t = Template::parse("{time:0} {{a<2.5>}} {{b<.25>}} {{c<0.1234567>}}").unwrap();
    let v: Vec<u64> = t.usages().iter().map(|u| u.value).collect();
    assert_eq!(v, vec![2_500_000, 250_000, 123_456]);
}

#[test]
fn malformed_weight_is_an_error() {
    let err = Template::parse("{time:0} {{fire<x>}}").err().unwrap();
    assert_eq!(err, "Unrecognized value format -- x");
    let err = Template::parse("{time:0} {{fire<1.2.3>}}").err().unwrap();
    assert!(err.contains("1.2.3"));
}

#[test]
fn parsing_twice_gives_the_same_usages() {
    let text = "{time:1:05} {{fire / ice}} {{air<3>}}\nplain {{x}}\n{time:7}{{earth}}";
    let a = Template::parse(text).unwrap();
    let b = Template::parse(text).unwrap();
    assert_eq!(a.usages().len(), b.usages().len());
    for (x, y) in a.usages().iter().zip(b.usages().iter()) {
        assert_eq!(x.uid, y.uid);
        assert_eq!(x.at, y.at);
        assert_eq!(x.value, y.value);
        assert_eq!(x.group_names, y.group_names);
    }
}

#[test]
fn ids_run_across_lines_and_tags_are_trimmed() {
    let t = Template::parse("{time:1:05} {{ fire / ice }} {{air}}\nplain {{x}}\n{time:7}{{earth}}").unwrap();
    let u = t.usages();
    assert_eq!(u.len(), 3);
    assert_eq!(u.iter().map(|e| e.uid).collect::<Vec<_>>(), vec![1, 2, 3]);
    assert_eq!(u.iter().map(|e| e.at).collect::<Vec<_>>(), vec![65, 65, 7]);
    assert_eq!(u[0].group_names, vec!["fire".to_string(), "ice".to_string()]);
}

#[test]
fn minutes_and_seconds() {
    let t = Template::parse("{time:2:30} {{a}}").unwrap();
    assert_eq!(t.usages()[0].at, 150);
    assert!(Template::parse("{time:1:2:3} {{a}}").is_err());
    assert!(Template::parse("{time:} {{a}}").is_err());
    assert!(Template::parse("{time:99999999999999999999} {{a}}").is_err());
}

#[test]
fn empty_template() {
    let t = Template::parse("").unwrap();
    assert!(t.usages().is_empty());
    assert_eq!(t.subst_assignments("", HashMap::new()), "");
}

#[test]
fn no_resources_renders_fallback() {
    let text = "intro {{skip}}\n{time:0} {{fire}} and {{ice}}\n\nend\n";
    let out = run(text, &[], Some(vec![None, None]));
    assert_eq!(
        out,
        format!("intro {{{{skip}}}}\n{{time:0}} {} and {}\n\nend\n", FALLBACK, FALLBACK)
    );
    let out_failed = run(text, &[], None);
    assert_eq!(out, out_failed);
}

#[test]
fn solver_failure_leaves_everything_unserved() {
    let cds = vec![rune(30, &["fire"])];
    let out = run("{time:0} {{fire}}", &cds, None);
    assert_eq!(out, format!("{{time:0}} {}", FALLBACK));
}

#[test]
fn eligibility_follows_tags() {
    let t = Template::parse("{time:0} {{fire}} {{ice/air}}").unwrap();
    let cds = vec![rune(10, &["fire"]), rune(10, &["air", "earth"])];
    let s = Schedule::new(t.usages(), &cds);
    assert_eq!(s.eligibility(), vec![vec![true, false], vec![false, true]]);
}

#[test]
fn recharge_conflicts_list_close_pairs() {
    let t = Template::parse("{time:0} {{a}}\n{time:10} {{a}}\n{time:40} {{a}}").unwrap();
    let cds = vec![rune(30, &["a"])];
    let s = Schedule::new(t.usages(), &cds);
    assert_eq!(s.recharge_conflicts(0), vec![(0, 1)]);
}

#[test]
fn recharge_conflicts_out_of_time_order() {
    let t = Template::parse("{time:10} {{fire}}\n{time:0} {{fire}}\n{time:20} {{fire}}").unwrap();
    let cds = vec![rune(15, &["fire"])];
    let s = Schedule::new(t.usages(), &cds);
    assert_eq!(s.recharge_conflicts(0), vec![(0, 1), (0, 2)]);
    assert!(s.is_feasible(&vec![None, Some(0), Some(0)]));
    assert!(!s.is_feasible(&vec![Some(0), Some(0), None]));
    assert!(!s.is_feasible(&vec![Some(0), None, Some(0)]));
}

#[test]
fn greedy_visits_earliest_first() {
    let t = Template::parse("{time:10} {{fire}}\n{time:0} {{fire}}\n{time:20} {{fire}}").unwrap();
    let cds = vec![rune(15, &["fire"])];
    let s = Schedule::new(t.usages(), &cds);
    assert_eq!(s.time_order(), vec![1, 0, 2]);
    assert_eq!(s.greedy(), vec![None, Some(0), Some(0)]);
    assert_eq!(s.select_plan(Some(vec![Some(0), None, None])), vec![None, Some(0), Some(0)]);
    let map = Schedule::new(t.usages(), &cds).assignments(Some(vec![Some(0), None, None]));
    assert_eq!(map.get(&1), Some(&None));
    assert_eq!(map.get(&2), Some(&Some("Rune".to_string())));
    assert_eq!(map.get(&3), Some(&Some("Rune".to_string())));
}

#[test]
fn time_order_breaks_ties_by_document_order() {
    let t = Template::parse("{time:5} {{a}} {{b}}\n{time:1} {{c}}").unwrap();
    let s = Schedule::new(t.usages(), &[]);
    assert_eq!(s.time_order(), vec![2, 0, 1]);
}

#[test]
fn two_close_usages_one_resource_for_every_answer() {
    let t = Template::parse("{time:0} {{fire}}\n{time:10} {{fire}}").unwrap();
    let cds = vec![rune(30, &["fire"])];
    let s = Schedule::new(t.usages(), &cds);
    for answer in [vec![None, None], vec![Some(0), None], vec![None, Some(0)], vec![Some(0), Some(0)]] {
        let plan = s.select_plan(Some(answer));
        assert_eq!(plan.iter().filter(|p| p.is_some()).count(), 1);
    }
}

#[test]
fn infeasible_answers_are_replaced_by_the_baseline() {
    let t = Template::parse("{time:0} {{a}}\n{time:10} {{a<3>}}").unwrap();
    let cds = vec![rune(30, &["a"]), rune(5, &["b"])];
    let s = Schedule::new(t.usages(), &cds);
    assert!(!s.is_feasible(&vec![Some(0), Some(0)]));
    assert!(!s.is_feasible(&vec![Some(1), None]));
    assert!(!s.is_feasible(&vec![Some(0)]));
    assert!(s.is_feasible(&vec![None, Some(0)]));
    assert_eq!(s.greedy(), vec![Some(0), None]);
    assert_eq!(s.value_of(&vec![None, Some(0)]), 3_000_000);
    assert_eq!(s.select_plan(Some(vec![Some(0), Some(0)])), vec![Some(0), None]);
    assert_eq!(s.select_plan(Some(vec![None, Some(0)])), vec![None, Some(0)]);
    assert_eq!(s.select_plan(Some(vec![None, None])), vec![Some(0), None]);
    assert_eq!(s.select_plan(None), vec![None, None]);
}

#[test]
fn plan_beats_the_baseline() {
    let t = Template::parse("{time:0} {{a}}\n{time:10} {{a<3>}}").unwrap();
    let cds = vec![rune(30, &["a"])];
    let s = Schedule::new(t.usages(), &cds);
    let baseline = s.value_of(&s.greedy());
    for answer in [vec![None, None], vec![Some(0), None], vec![None, Some(0)], vec![Some(0), Some(0)]] {
        let plan = s.select_plan(Some(answer));
        assert!(s.is_feasible(&plan));
        assert!(s.value_of(&plan) >= baseline);
    }
}

#[test]
fn assignment_map_names_the_resource() {
    let t = Template::parse("{time:0} {{a}} {{b}}").unwrap();
    let cds = vec![Cooldown { display_name: "Shield".to_string(), cooldown: 0, group_names: vec!["b".to_string()] }];
    let map = Schedule::new(t.usages(), &cds).assignments(Some(vec![None, Some(0)]));
    assert_eq!(map.len(), 2);
    assert_eq!(map.get(&1), Some(&None));
    assert_eq!(map.get(&2), Some(&Some("Shield".to_string())));
}

#[test]
fn note_success_has_no_error() {
    let n = Note::success("out".to_string());
    assert_eq!(n.output, "out");
    assert!(n.error.is_empty());
}
