use ci_logs::appveyor::{
    accepted_status, api_headers, api_url, build_path, is_successful, is_wanted_job, job_log_url,
    log_dir, log_file_name, request_headers, AppVeyorBuilds, Build, History, Job, Project, Step,
    PER_PAGE,
};

fn build(id: u32, number: u32, status: &str) -> Build {
    Build {
        build_id: id,
        jobs: vec![],
        build_number: number,
        version: format!("1.0.{}", number),
        message: String::new(),
        branch: "auto".to_string(),
        commit_id: "abc".to_string(),
        status: status.to_string(),
        started: None,
        finished: None,
        created: String::new(),
        updated: None,
    }
}

fn page(builds: Vec<Build>) -> History {
    History {
        project: Project {
            project_id: 1,
            account_id: 2,
            account_name: "rust-lang".to_string(),
            name: "rust".to_string(),
            slug: "rust".to_string(),
            repository_name: "rust-lang/rust".to_string(),
            repository_type: "gitHub".to_string(),
        },
        builds,
    }
}

fn fetched(step: Step) -> String {
    match step {
        Step::Fetch(p) => p,
        _ => panic!("expected a fetch"),
    }
}

fn yielded(step: Step) -> u32 {
    match step {
        Step::Yield(b) => b.build_id,
        _ => panic!("expected a build"),
    }
}

#[test]
fn lister_pages_through_the_history() {
    let mut l = AppVeyorBuilds::new("tok".to_string(), Some("auto".to_string()));
    assert_eq!(l.token(), "tok");
    assert_eq!(PER_PAGE, 100);
    assert_eq!(fetched(l.poll()), "/projects/rust-lang/rust/history?recordsNumber=100&branch=auto");
    assert!(matches!(l.poll(), Step::Wait));
    assert!(matches!(l.poll(), Step::Wait));
    l.page_arrived(page(vec![build(50, 5, "success"), build(40, 4, "failed"), build(45, 3, "success")]));
    assert_eq!(yielded(l.poll()), 50);
    assert_eq!(yielded(l.poll()), 40);
    assert_eq!(yielded(l.poll()), 45);
    assert_eq!(
        fetched(l.poll()),
        "/projects/rust-lang/rust/history?recordsNumber=100&branch=auto&startBuildId=40"
    );
    assert!(matches!(l.poll(), Step::Wait));
}

#[test]
fn an_empty_page_starts_over() {
    let mut l = AppVeyorBuilds::new("t".to_string(), None);
    assert_eq!(fetched(l.poll()), "/projects/rust-lang/rust/history?recordsNumber=100");
    l.page_arrived(page(vec![build(7, 1, "success")]));
    assert_eq!(yielded(l.poll()), 7);
    assert_eq!(fetched(l.poll()), "/projects/rust-lang/rust/history?recordsNumber=100&startBuildId=7");
    l.page_arrived(page(vec![]));
    assert_eq!(fetched(l.poll()), "/projects/rust-lang/rust/history?recordsNumber=100");
}

#[test]
fn builds_and_jobs() {
    assert!(is_successful(&build(1, 1, "success")));
    assert!(!is_successful(&build(1, 1, "failed")));
    assert!(!is_successful(&build(1, 1, "successful")));
    assert_eq!(build_path(&build(1, 17, "success")), "/projects/rust-lang/rust/build/1.0.17");
    assert_eq!(log_file_name(&build(1, 4711, "success")), "4711");
    let job = |name: &str| Job { job_id: "j1".to_string(), status: "success".to_string(), name: name.to_string() };
    let msvc = job("Environment: RUST_CHECK_TARGET=check MSYS_BITS=32 RUST_CONFIGURE_ARGS=--build=i686-pc-windows-msvc SCRIPT=python x.py test");
    let gnu = job("Environment: RUST_CONFIGURE_ARGS=--build=i686-pc-windows-gnu SCRIPT=python x.py test");
    let x64 = job("Environment: RUST_CONFIGURE_ARGS=--build=x86_64-pc-windows-msvc SCRIPT=python x.py test");
    let dist = job("Environment: RUST_CONFIGURE_ARGS=--build=i686-pc-windows-msvc SCRIPT=python x.py dist");
    assert!(is_wanted_job(&msvc));
    assert!(is_wanted_job(&gnu));
    assert!(!is_wanted_job(&x64));
    assert!(!is_wanted_job(&dist));
    assert_eq!(log_dir(&msvc), "msvc");
    assert_eq!(log_dir(&gnu), "gnu");
    assert_eq!(job_log_url(&msvc), "https://ci.appveyor.com/api/buildjobs/j1/log");
}

#[test]
fn requests() {
    assert_eq!(api_url("/projects/x"), "https://ci.appveyor.com/api/projects/x");
    let h = api_headers("SECRET");
    assert_eq!(h, vec!["Authorization: Bearer SECRET".to_string(), "Accept: application/json".to_string()]);
    let r = request_headers(&h);
    assert_eq!(r.len(), 3);
    assert_eq!(r[0], "User-Agent: hello/1.2");
    assert_eq!(r[1..], h[..]);
    assert_eq!(request_headers(&vec![]), vec!["User-Agent: hello/1.2".to_string()]);
    assert!(accepted_status(200));
    assert!(accepted_status(204));
    assert!(!accepted_status(404));
    assert!(!accepted_status(201));
}

#[test]
fn pages_are_handed_out_in_order_across_several_pages() {
    let mut l = AppVeyorBuilds::new("t".to_string(), None);
    let pages = vec![vec![30u32, 20, 25], vec![19, 18], vec![10]];
    let mut handed = Vec::new();
    let mut expected = Vec::new();
    for ids in pages {
        // every build of the page before was handed out before this request
        assert_eq!(handed, expected);
        let path = fetched(l.poll());
        assert!(path.starts_with("/projects/rust-lang/rust/history?recordsNumber=100"));
        assert!(matches!(l.poll(), Step::Wait));
        expected.extend(ids.iter().copied());
        l.page_arrived(page(ids.iter().map(|&id| build(id, id, "success")).collect()));
        for _ in 0..ids.len() {
            handed.push(yielded(l.poll()));
        }
    }
    assert_eq!(handed, vec![30, 20, 25, 19, 18, 10]);
    assert_eq!(fetched(l.poll()), "/projects/rust-lang/rust/history?recordsNumber=100&startBuildId=10");
}
