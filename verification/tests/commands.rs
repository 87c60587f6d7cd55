use portsmith::commands::check::{assess_services, dedup_services, port_listed, CheckOutcome};
use portsmith::commands::detect::DetectedService;
use portsmith::commands::list::listener_table_lines;
use portsmith::text::push_decimal;
use portsmith::commands::profile::{
    normalize_ports, profile_from_ports, save_plan, Profile, SavePlan, PROFILE_FILE,
};
use portsmith::commands::start::{conflicts, free_plan, resolve_ports};
use portsmith::commands::detect::DetectedPort;
use portsmith::commands::{listeners_on_port, sort_listeners, ListenerInfo};
use portsmith::ui::{color_enabled, warn_box};

fn service(port: u16, name: &str, source: &str) -> DetectedService {
    DetectedService {
        port,
        name: name.to_string(),
        source: source.to_string(),
    }
}

fn listener(port: u16, pid: u32, process: &str) -> ListenerInfo {
    ListenerInfo {
        port,
        pid,
        process: process.to_string(),
        protocol: "TCP".to_string(),
        address: format!("127.0.0.1:{port}"),
    }
}

fn summary(services: &[DetectedService]) -> Vec<(u16, String, String)> {
    services
        .iter()
        .map(|s| (s.port, s.name.clone(), s.source.clone()))
        .collect()
}

#[test]
fn dedup_keeps_first_service_per_port_in_port_order() {
    let services = vec![
        service(6379, "redis", ".env"),
        service(5432, "postgres", ".env"),
        service(5432, "database", ".env.local"),
        service(6379, "cache", "apps/.env"),
        service(27017, "mongodb", ".env"),
    ];
    let got = summary(&dedup_services(services));
    assert_eq!(
        got,
        vec![
            (5432, "postgres".to_string(), ".env".to_string()),
            (6379, "redis".to_string(), ".env".to_string()),
            (27017, "mongodb".to_string(), ".env".to_string()),
        ]
    );
}

#[test]
fn check_with_no_services() {
    let report = assess_services(Vec::new(), Some(vec![5432]));
    assert!(matches!(report.outcome, CheckOutcome::NoServices));
    assert!(report.statuses.is_empty());
}

#[test]
fn check_without_listener_information() {
    let report = assess_services(vec![service(5432, "postgres", ".env")], None);
    assert!(matches!(report.outcome, CheckOutcome::SomeDown));
    assert!(report.statuses.is_empty());
}

#[test]
fn check_all_up() {
    let services = vec![service(6379, "redis", ".env"), service(5432, "postgres", ".env")];
    let report = assess_services(services, Some(vec![3000, 5432, 6379]));
    assert!(matches!(report.outcome, CheckOutcome::AllUp));
    let got: Vec<(u16, bool)> = report
        .statuses
        .iter()
        .map(|s| (s.service.port, s.running))
        .collect();
    assert_eq!(got, vec![(5432, true), (6379, true)]);
}

#[test]
fn check_some_down() {
    let services = vec![
        service(5432, "postgres", ".env"),
        service(5432, "database", ".env"),
        service(6379, "redis", ".env"),
    ];
    let report = assess_services(services, Some(vec![5432]));
    assert!(matches!(report.outcome, CheckOutcome::SomeDown));
    let got: Vec<(u16, &str, bool)> = report
        .statuses
        .iter()
        .map(|s| (s.service.port, s.service.name.as_str(), s.running))
        .collect();
    assert_eq!(got, vec![(5432, "postgres", true), (6379, "redis", false)]);
}

#[test]
fn listed_ports() {
    assert!(port_listed(&vec![1, 2, 3], 2));
    assert!(!port_listed(&vec![1, 2, 3], 4));
    assert!(!port_listed(&vec![], 4));
}

#[test]
fn normalize_sorts_and_dedups() {
    assert_eq!(normalize_ports(vec![8080, 3000, 8080, 5173, 3000]), vec![3000, 5173, 8080]);
    assert_eq!(normalize_ports(vec![]), Vec::<u16>::new());
    assert_eq!(normalize_ports(vec![1]), vec![1]);
}

#[test]
fn normalize_is_idempotent_on_examples() {
    let once = normalize_ports(vec![9, 1, 5, 1, 9]);
    let twice = normalize_ports(once.clone());
    assert_eq!(once, twice);
}

#[test]
fn normalize_ignores_order_and_repeats() {
    assert_eq!(normalize_ports(vec![3, 2, 1]), normalize_ports(vec![1, 1, 2, 3, 3]));
}

#[test]
fn profiles_from_ports() {
    assert!(profile_from_ports(vec![]).is_none());
    let p = profile_from_ports(vec![8080, 3000, 3000]).unwrap();
    assert_eq!(p.ports, vec![3000, 8080]);
    assert_eq!(PROFILE_FILE, ".portsmith.json");
}

#[test]
fn resolve_prefers_the_profile() {
    let detected = vec![DetectedPort {
        port: 4000,
        source: ".env".to_string(),
    }];
    let profile = Profile {
        ports: vec![8080, 3000],
    };
    assert_eq!(resolve_ports(Some(profile), detected), vec![3000, 8080]);
}

#[test]
fn resolve_uses_detected_ports() {
    let detected = vec![
        DetectedPort {
            port: 5173,
            source: ".env".to_string(),
        },
        DetectedPort {
            port: 3000,
            source: "package.json".to_string(),
        },
        DetectedPort {
            port: 5173,
            source: "apps/.env".to_string(),
        },
    ];
    assert_eq!(resolve_ports(None, detected), vec![3000, 5173]);
    assert_eq!(resolve_ports(None, Vec::new()), Vec::<u16>::new());
}

#[test]
fn sort_listeners_is_stable_by_port() {
    let sorted = sort_listeners(vec![
        listener(5000, 1, "a"),
        listener(3000, 2, "b"),
        listener(5000, 3, "c"),
        listener(80, 4, "d"),
        listener(3000, 5, "e"),
    ]);
    let got: Vec<(u16, u32)> = sorted.iter().map(|l| (l.port, l.pid)).collect();
    assert_eq!(got, vec![(80, 4), (3000, 2), (3000, 5), (5000, 1), (5000, 3)]);
}

#[test]
fn filter_listeners_by_port() {
    let all = vec![listener(3000, 1, "a"), listener(4000, 2, "b"), listener(3000, 3, "c")];
    let got: Vec<u32> = listeners_on_port(&all, 3000).iter().map(|l| l.pid).collect();
    assert_eq!(got, vec![1, 3]);
    assert!(listeners_on_port(&all, 5000).is_empty());
}

#[test]
fn conflicts_spare_this_process() {
    let all = vec![listener(3000, 10, "node"), listener(3000, 99, "portsmith"), listener(4000, 11, "x")];
    let got: Vec<u32> = conflicts(&all, 3000, 99).iter().map(|l| l.pid).collect();
    assert_eq!(got, vec![10]);
}

#[test]
fn free_plan_skips_port_zero() {
    let all = vec![listener(3000, 10, "node"), listener(3000, 99, "portsmith"), listener(5000, 11, "x")];
    let plan = free_plan(&vec![0, 3000, 4000], &all, 99);
    let got: Vec<(u16, Vec<u32>)> = plan
        .iter()
        .map(|e| (e.port, e.conflicts.iter().map(|l| l.pid).collect()))
        .collect();
    assert_eq!(got, vec![(3000, vec![10]), (4000, vec![])]);
}

#[test]
fn decimal_text_of_pids() {
    for n in [0u32, 7, 10, 99, 100, 4294967295] {
        let mut s = String::from("pid ");
        push_decimal(&mut s, n);
        assert_eq!(s, format!("pid {n}"));
    }
}

#[test]
fn listener_table() {
    let lines = listener_table_lines(&vec![listener(3000, 87460, "node")]);
    assert_eq!(lines.len(), 3);
    assert_eq!(
        lines[0],
        format!("{:<8} {:<24} {:<8} {:<20}", "PROTO", "ADDRESS", "PID", "PROCESS")
    );
    assert_eq!(lines[1], "-".repeat(62));
    assert_eq!(
        lines[2],
        format!("{:<8} {:<24} {:<8} {:<20}", "TCP", "127.0.0.1:3000", 87460, "node")
    );
}

#[test]
fn listener_table_keeps_long_fields() {
    let mut l = listener(1, 1, "a-very-long-process-name-indeed");
    l.address = "[fe80::1234:5678:9abc:def0]:65535".to_string();
    let lines = listener_table_lines(&vec![l]);
    assert_eq!(
        lines[2],
        format!(
            "{:<8} {:<24} {:<8} {:<20}",
            "TCP", "[fe80::1234:5678:9abc:def0]:65535", 1, "a-very-long-process-name-indeed"
        )
    );
}

#[test]
fn color_choice() {
    assert!(!color_enabled(true, true, true));
    assert!(color_enabled(false, true, false));
    assert!(color_enabled(false, false, true));
    assert!(!color_enabled(false, false, false));
}

#[test]
fn warn_box_plain() {
    let lines = warn_box(&vec!["Hello", "", "ab"], false);
    assert_eq!(
        lines,
        vec![
            "".to_string(),
            "  ╭─────────╮".to_string(),
            "  │  Hello  │".to_string(),
            "  │         │".to_string(),
            "  │  ab     │".to_string(),
            "  ╰─────────╯".to_string(),
            "".to_string(),
        ]
    );
}

#[test]
fn warn_box_colored() {
    let lines = warn_box(&vec!["Hé"], true);
    assert_eq!(lines.len(), 5);
    assert_eq!(lines[1], "  \x1b[33m╭──────╮\x1b[0m");
    assert_eq!(
        lines[2],
        "  \x1b[33m│\x1b[0m\x1b[1;33m  Hé  \x1b[0m\x1b[33m│\x1b[0m"
    );
    assert_eq!(lines[3], "  \x1b[33m╰──────╯\x1b[0m");
}

#[test]
fn warn_box_empty() {
    let lines = warn_box(&vec![], false);
    assert_eq!(lines, vec!["", "  ╭────╮", "  ╰────╯", ""]);
}

#[test]
fn save_prefers_explicit_ports() {
    let detected = vec![DetectedPort { port: 3000, source: ".env".to_string() }];
    match save_plan(vec![8080, 80, 8080], &detected) {
        SavePlan::Save(p) => assert_eq!(p.ports, vec![80, 8080]),
        SavePlan::NothingDetected => panic!("explicit ports were given"),
    }
}

#[test]
fn save_falls_back_to_detected_ports() {
    let detected = vec![
        DetectedPort { port: 5173, source: "package.json".to_string() },
        DetectedPort { port: 3000, source: ".env".to_string() },
        DetectedPort { port: 5173, source: ".env.local".to_string() },
    ];
    match save_plan(Vec::new(), &detected) {
        SavePlan::Save(p) => assert_eq!(p.ports, vec![3000, 5173]),
        SavePlan::NothingDetected => panic!("ports were detected"),
    }
}

#[test]
fn save_with_nothing_detected() {
    assert!(matches!(save_plan(Vec::new(), &Vec::new()), SavePlan::NothingDetected));
}
