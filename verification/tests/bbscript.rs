//! The bbscript format.

use plouf_rs::bbscript::extract;

#[test]
fn emits_feature_scenarios_and_route_visits() {
    let code = "Feature: logout\n\n# a comment\nBackground:\n  open /login\n  fill [name=\"email\"] a@b.c\nScenario: redirects when logged out\n  open /clients\n  seeurl has /login?redirect=\nScenario: can log back in\n  reload\n  seeurl ends /clients\n";
    let (nodes, edges) = extract("tests/e2e/logout.bbscript", "logout.bbscript", code);

    // one file + two scenarios + the distinct route nodes
    assert!(nodes.iter().any(|n| n.kind == "file"));
    let scenarios: Vec<&str> = nodes.iter().filter(|n| n.kind == "scenario").map(|n| n.name.as_str()).collect();
    assert!(scenarios.contains(&"redirects when logged out") && scenarios.contains(&"can log back in"));
    let route_nodes: Vec<&str> = nodes.iter().filter(|n| n.kind == "route").map(|n| n.name.as_str()).collect();
    assert!(route_nodes.contains(&"/login") && route_nodes.contains(&"/clients"));

    // Background `open /login` attributes to the file; scenario steps to the scenario.
    assert!(edges.iter().any(|e| e.relation == "visits" && e.source == "tests/e2e/logout.bbscript" && e.name.as_deref() == Some("/login")));
    assert!(edges
        .iter()
        .any(|e| e.relation == "visits" && e.source.ends_with("#redirects when logged out") && e.name.as_deref() == Some("/clients")));
    // The query-string is trimmed to the route path.
    assert!(edges.iter().any(|e| e.relation == "visits" && e.name.as_deref() == Some("/login")));
    // A non-route step (fill ...) yields no visit.
    assert!(!edges.iter().any(|e| e.relation == "visits" && e.name.as_deref() == Some("a@b.c")));
}

#[test]
fn duplicate_scenario_names_get_distinct_ids() {
    let (nodes, _) = extract("x.bbscript", "x.bbscript", "Scenario: same\n  open /a\nScenario: same\n  open /b\n");
    let ids: Vec<&str> = nodes.iter().filter(|n| n.kind == "scenario").map(|n| n.id.as_str()).collect();
    assert_eq!(ids.len(), 2);
    assert_ne!(ids[0], ids[1]); // the second `same` is minted with a ~2 suffix
}

#[test]
fn steps_without_a_route_are_ignored() {
    let code = "Scenario: nothing navigational\n  storage remove mounch.user\n  see role:heading[name=\"Clients\"]\n";
    let (nodes, edges) = extract("x.bbscript", "x.bbscript", code);
    assert!(!edges.iter().any(|e| e.relation == "visits"));
    assert!(!nodes.iter().any(|n| n.kind == "route"));
}

#[test]
fn scenarios_of_one_name_get_distinct_ids() {
    let code = "Scenario: a\n open /x?q=1\nScenario: a\n open /x#top\n# open /no\nBackground:\n open /y\n";
    let (nodes, edges) = extract("e.bbscript", "e.bbscript", code);
    let ids: Vec<&str> = nodes.iter().map(|n| n.id.as_str()).collect();
    assert_eq!(ids, vec!["e.bbscript", "e.bbscript#a", "route:/x", "e.bbscript#a~2", "route:/y"]);
    let visits: Vec<(&str, Option<&str>)> =
        edges.iter().filter(|e| e.relation == "visits").map(|e| (e.source.as_str(), e.name.as_deref())).collect();
    assert_eq!(
        visits,
        vec![("e.bbscript#a", Some("/x")), ("e.bbscript#a~2", Some("/x")), ("e.bbscript", Some("/y"))]
    );
}
