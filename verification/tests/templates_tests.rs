use architect::model::{MainStat, ResultStat};
use architect::templates::{fill_chart_template, html_page};

fn m(inserts: u32, dels: u32, commits: u32) -> MainStat {
    MainStat { inserts: inserts, dels: dels, commits: commits }
}

#[test]
fn html_page_replaces_every_marker() {
    let page = html_page("<html>{architect-data}</html>{architect-data}", "{\"x\":1}");
    assert_eq!(page, "<html>var data = {\"x\":1};</html>var data = {\"x\":1};");
    assert_eq!(html_page("no marker", "{}"), "no marker");
    assert_eq!(html_page("{architect-data", "{}"), "{architect-data");
}

#[test]
fn chart_template_replaces_first_occurrences_in_turn() {
    let mut total = ResultStat::new("TOTAL".to_string(), "TOTAL".to_string());
    total.days[0] = m(11, 3, 2);
    total.days[1] = m(5, 5, 1);
    total.daytimes[0] = m(10, 2, 1);
    total.daytimes[3] = m(1, 1, 1);
    let text = fill_chart_template("c1|a1|d1|c2|a2|d2|cd1|cd4|c1", &total);
    assert_eq!(text, "2|11|3|1|5|5|1|c0|c1");
    assert_eq!(fill_chart_template("", &total), "");
}
