//! The build history of a project on AppVeyor, fetched page by page, and the
//! choices made about which builds, jobs and logs to fetch.
//!
//! Requests and responses are left to the caller: the lister says which page
//! to ask for next, and is handed each page that arrives.

use vstd::prelude::*;
use vstd::string::*;
use vstd::utf8::encode_utf8;
use crate::decimal::{ascii_text, decimal_bytes, push_decimal};
use crate::text::{contains, contains_bytes, str_eq};

verus! {

/// One page of the build history of a project.
#[derive(Debug)]
pub struct History {
    pub project: Project,
    pub builds: Vec<Build>,
}

/// A project on AppVeyor.
#[derive(Debug)]
pub struct Project {
    pub project_id: u32,
    pub account_id: u32,
    pub account_name: String,
    pub name: String,
    pub slug: String,
    pub repository_name: String,
    pub repository_type: String,
}

/// The answer to asking for one build.
pub struct GetBuild {
    pub build: Build,
}

/// A build of a project.
#[derive(Debug)]
pub struct Build {
    pub build_id: u32,
    pub jobs: Vec<Job>,
    pub build_number: u32,
    pub version: String,
    pub message: String,
    pub branch: String,
    pub commit_id: String,
    pub status: String,
    pub started: Option<String>,
    pub finished: Option<String>,
    pub created: String,
    pub updated: Option<String>,
}

/// One job of a build.
#[derive(Debug)]
pub struct Job {
    pub job_id: String,
    pub status: String,
    pub name: String,
}

/// The answer to asking for the last build.
#[derive(Debug)]
pub struct LastBuild {
    pub build: Build,
}

/// How many builds one page of the history holds.
pub const PER_PAGE: u32 = 100;

/// The smallest build id of a page, `None` for an empty page.
pub open spec fn min_id(builds: Seq<Build>) -> Option<u32>
    decreases builds.len(),
{
    if builds.len() == 0 {
        None
    } else {
        let id = builds.last().build_id;
        match min_id(builds.drop_last()) {
            None => Some(id),
            Some(m) => Some(if id < m { id } else { m }),
        }
    }
}

/// The path, below the API root, of the page of the history that starts at
/// build `start` (the newest builds where there is no start), holding builds
/// of `branch` only where one is given.
pub open spec fn history_path(branch: Option<Seq<char>>, start: Option<u32>) -> Seq<char> {
    "/projects/rust-lang/rust/history?recordsNumber="@ + ascii_text(decimal_bytes(PER_PAGE as nat))
        + match branch {
        Some(b) => "&branch="@ + b,
        None => seq![],
    } + match start {
        Some(s) => "&startBuildId="@ + ascii_text(decimal_bytes(s as nat)),
        None => seq![],
    }
}

/// The state of a lister: the builds of the last page not yet handed out,
/// where the next page starts, whether a page has been asked for and not yet
/// arrived, and the branch whose builds are listed.
pub struct ListerState {
    pub pending: Seq<Build>,
    pub next_start: Option<u32>,
    pub fetching: bool,
    pub branch: Option<Seq<char>>,
}

/// What a lister asks of its caller.
pub enum Step {
    /// Here is the next build.
    Yield(Build),
    /// Ask for the page at this path below the API root, and hand it over
    /// when it arrives.
    Fetch(String),
    /// The page asked for has not arrived yet.
    Wait,
}

/// The view of a step.
pub enum StepView {
    Yield(Build),
    Fetch(Seq<char>),
    Wait,
}

impl View for Step {
    type V = StepView;

    open spec fn view(&self) -> StepView {
        match self {
            Step::Yield(b) => StepView::Yield(*b),
            Step::Fetch(p) => StepView::Fetch(p@),
            Step::Wait => StepView::Wait,
        }
    }
}

/// What a lister in state `st` asks next, and the state it is in after.
pub open spec fn spec_poll(st: ListerState) -> (ListerState, StepView) {
    if st.pending.len() > 0 {
        (ListerState { pending: st.pending.drop_first(), ..st }, StepView::Yield(st.pending[0]))
    } else if st.fetching {
        (st, StepView::Wait)
    } else {
        (
            ListerState { fetching: true, ..st },
            StepView::Fetch(history_path(st.branch, st.next_start)),
        )
    }
}

/// The state of a lister after the page `builds` arrived.
pub open spec fn spec_arrive(st: ListerState, builds: Seq<Build>) -> ListerState {
    ListerState { pending: builds, next_start: min_id(builds), fetching: false, branch: st.branch }
}

/// Lists the builds of a project, newest first, page by page: it hands out
/// every build of a page before it asks for the next page, which starts at
/// the smallest build id of the page before.
pub struct AppVeyorBuilds {
    pending: Vec<Build>,
    next_start: Option<u32>,
    fetching: bool,
    token: String,
    branch: Option<String>,
}

impl View for AppVeyorBuilds {
    type V = ListerState;

    closed spec fn view(&self) -> ListerState {
        ListerState {
            pending: self.pending@,
            next_start: self.next_start,
            fetching: self.fetching,
            branch: match self.branch {
                Some(b) => Some(b@),
                None => None,
            },
        }
    }
}

impl AppVeyorBuilds {
    /// The API token that requests carry.
    pub closed spec fn spec_token(&self) -> Seq<char> {
        self.token@
    }

    /// A lister of the builds of `branch` (of all branches where none is
    /// given) that asks with the API token `token`.
    pub fn new(token: String, branch: Option<String>) -> (r: AppVeyorBuilds)
        ensures
            r@.pending.len() == 0,
            r@.next_start is None,
            !r@.fetching,
            r@.branch == (match branch {
                Some(b) => Some(b@),
                None => None,
            }),
            r.spec_token() == token@,
    {
        AppVeyorBuilds { pending: Vec::new(), next_start: None, fetching: false, token, branch }
    }

    /// The API token that requests carry.
    pub fn token(&self) -> (r: &str)
        ensures
            r@ == self.spec_token(),
    {
        self.token.as_str()
    }

    /// What the caller is to do next: take the next build of the last page,
    /// ask for the next page, or wait for the page asked for.
    pub fn poll(&mut self) -> (r: Step)
        ensures
            (final(self)@, r@) == spec_poll(old(self)@),
            final(self).spec_token() == old(self).spec_token(),
    {
        if self.pending.len() > 0 {
            let b = self.pending.remove(0);
            return Step::Yield(b);
        }
        if self.fetching {
            return Step::Wait;
        }
        let mut url = String::from_str("/projects/rust-lang/rust/history?recordsNumber=");
        push_decimal(&mut url, PER_PAGE as u64);
        let ghost base = url@;
        match &self.branch {
            Some(branch) => {
                url.append("&branch=");
                url.append(branch.as_str());
            },
            None => {},
        }
        let ghost with_branch = url@;
        match self.next_start {
            Some(s) => {
                url.append("&startBuildId=");
                push_decimal(&mut url, s as u64);
            },
            None => {},
        }
        self.fetching = true;
        proof {
            let bv: Seq<char> = match self@.branch {
                Some(b) => "&branch="@ + b,
                None => seq![],
            };
            let sv: Seq<char> = match self@.next_start {
                Some(s) => "&startBuildId="@ + ascii_text(decimal_bytes(s as nat)),
                None => seq![],
            };
            assert(with_branch =~= base + bv);
            assert(url@ =~= base + bv + sv);
        }
        Step::Fetch(url)
    }

    /// Hands over the page that arrived: its builds are handed out next, and
    /// the page after starts at its smallest build id.
    pub fn page_arrived(&mut self, page: History)
        ensures
            final(self)@ == spec_arrive(old(self)@, page.builds@),
            final(self).spec_token() == old(self).spec_token(),
            final(self)@.next_start is None <==> page.builds@.len() == 0,
            final(self)@.next_start matches Some(m) ==> (exists|i: int|
                0 <= i < page.builds@.len() && (#[trigger] page.builds@[i]).build_id == m)
                && (forall|i: int|
                0 <= i < page.builds@.len() ==> m <= (#[trigger] page.builds@[i]).build_id),
    {
        proof {
            lemma_min_id(page.builds@);
        }
        let mut min: Option<u32> = None;
        let mut i: usize = 0;
        while i < page.builds.len()
            invariant
                i <= page.builds@.len(),
                min == min_id(page.builds@.take(i as int)),
            decreases page.builds@.len() - i,
        {
            let id = page.builds[i].build_id;
            proof {
                assert(page.builds@.take(i + 1).drop_last() =~= page.builds@.take(i as int));
            }
            min = match min {
                None => Some(id),
                Some(m) => Some(if id < m { id } else { m }),
            };
            i = i + 1;
        }
        proof {
            assert(page.builds@.take(page.builds@.len() as int) =~= page.builds@);
        }
        self.fetching = false;
        self.next_start = min;
        self.pending = page.builds;
    }
}

/// A build that succeeded; only those are fetched again.
pub open spec fn is_success(build: Build) -> bool {
    build.status@ == "success"@
}

/// Whether the build succeeded.
pub fn is_successful(build: &Build) -> (r: bool)
    ensures
        r == is_success(*build),
{
    str_eq(build.status.as_str(), "success")
}

/// The path, below the API root, at which a build is asked for with all its
/// jobs.
pub fn build_path(build: &Build) -> (r: String)
    ensures
        r@ == "/projects/rust-lang/rust/build/"@ + build.version@,
{
    let mut s = String::from_str("/projects/rust-lang/rust/build/");
    s.append(build.version.as_str());
    s
}

/// The jobs whose logs are fetched: those that build for i686 and run the
/// tests through `x.py test`.
pub open spec fn is_wanted(job: Job) -> bool {
    contains_bytes(encode_utf8(job.name@), encode_utf8("build=i686"@)) && contains_bytes(
        encode_utf8(job.name@),
        encode_utf8("x.py test"@),
    )
}

/// Whether the log of the job is fetched.
pub fn is_wanted_job(job: &Job) -> (r: bool)
    ensures
        r == is_wanted(*job),
        r == (contains_bytes(encode_utf8(job.name@), encode_utf8("build=i686"@)) && contains_bytes(
            encode_utf8(job.name@),
            encode_utf8("x.py test"@),
        )),
{
    let name = job.name.as_str().as_bytes();
    contains(name, "build=i686".as_bytes()) && contains(name, "x.py test".as_bytes())
}

/// The job builds with the MSVC toolchain.
pub open spec fn is_msvc(job: Job) -> bool {
    contains_bytes(encode_utf8(job.name@), encode_utf8("pc-windows-msvc"@))
}

/// The directory that the log of a job is saved in: `msvc` for jobs that
/// build with the MSVC toolchain, `gnu` for the others.
pub fn log_dir(job: &Job) -> (r: &'static str)
    ensures
        r@ == (if is_msvc(*job) {
            "msvc"@
        } else {
            "gnu"@
        }),
{
    if contains(job.name.as_str().as_bytes(), "pc-windows-msvc".as_bytes()) {
        "msvc"
    } else {
        "gnu"
    }
}

/// The file name that the log of a build is saved under: its build number.
pub fn log_file_name(build: &Build) -> (r: String)
    ensures
        r@ == ascii_text(decimal_bytes(build.build_number as nat)),
{
    let mut s = String::new();
    push_decimal(&mut s, build.build_number as u64);
    proof {
        assert(s@ =~= ascii_text(decimal_bytes(build.build_number as nat)));
    }
    s
}

/// Where the log of a job is fetched from.
pub fn job_log_url(job: &Job) -> (r: String)
    ensures
        r@ == "https://ci.appveyor.com/api/buildjobs/"@ + job.job_id@ + "/log"@,
{
    let mut s = String::from_str("https://ci.appveyor.com/api/buildjobs/");
    s.append(job.job_id.as_str());
    s.append("/log");
    s
}

/// The address of a path below the API root.
pub fn api_url(path: &str) -> (r: String)
    ensures
        r@ == "https://ci.appveyor.com/api"@ + path@,
{
    let mut s = String::from_str("https://ci.appveyor.com/api");
    s.append(path);
    s
}

/// The headers that requests to the API carry: the token, and that the
/// answer be JSON.
pub fn api_headers(token: &str) -> (r: Vec<String>)
    ensures
        r@.len() == 2,
        r@[0]@ == "Authorization: Bearer "@ + token@,
        r@[1]@ == "Accept: application/json"@,
{
    let mut auth = String::from_str("Authorization: Bearer ");
    auth.append(token);
    let mut r: Vec<String> = Vec::new();
    r.push(auth);
    r.push(String::from_str("Accept: application/json"));
    r
}

/// The headers of a request: the user agent, then the given headers.
pub fn request_headers(headers: &Vec<String>) -> (r: Vec<String>)
    ensures
        r@.len() == headers@.len() + 1,
        r@[0]@ == "User-Agent: hello/1.2"@,
        forall|i: int| 0 <= i < headers@.len() ==> (#[trigger] r@[i + 1])@ == headers@[i]@,
{
    let mut r: Vec<String> = Vec::new();
    r.push(String::from_str("User-Agent: hello/1.2"));
    let mut i: usize = 0;
    while i < headers.len()
        invariant
            i <= headers@.len(),
            r@.len() == i + 1,
            r@[0]@ == "User-Agent: hello/1.2"@,
            forall|j: int| 0 <= j < i ==> (#[trigger] r@[j + 1])@ == headers@[j]@,
        decreases headers@.len() - i,
    {
        r.push(headers[i].clone());
        i = i + 1;
    }
    r
}

/// Whether a response with this status code is taken: 200 and 204 are.
pub fn accepted_status(code: u32) -> (r: bool)
    ensures
        r == (code == 200 || code == 204),
{
    code == 200 || code == 204
}

/// The steps of `n` polls of a lister in state `st`, and its state after.
pub open spec fn run_polls(st: ListerState, n: nat) -> (ListerState, Seq<StepView>)
    decreases n,
{
    if n == 0 {
        (st, seq![])
    } else {
        let (next, step) = spec_poll(st);
        let (last, rest) = run_polls(next, (n - 1) as nat);
        (last, seq![step] + rest)
    }
}

/// A lister that holds builds and has asked for nothing hands out those
/// builds in order, then asks for the page that starts where it says.
pub proof fn lemma_drains_then_fetches(st: ListerState)
    requires
        !st.fetching,
    ensures
        run_polls(st, st.pending.len() + 1).1 == st.pending.map_values(|b: Build| StepView::Yield(b))
            + seq![StepView::Fetch(history_path(st.branch, st.next_start))],
        run_polls(st, st.pending.len() + 1).0 == (ListerState {
            pending: seq![],
            fetching: true,
            ..st
        }),
    decreases st.pending.len(),
{
    if st.pending.len() == 0 {
        assert(st.pending =~= seq![]);
        let (next, step) = spec_poll(st);
        assert(run_polls(next, 0).1 =~= seq![]);
        assert(st.pending.map_values(|b: Build| StepView::Yield(b)) =~= seq![]);
    } else {
        let (next, step) = spec_poll(st);
        lemma_drains_then_fetches(next);
        assert(next.pending.len() + 1 == st.pending.len());
        assert(st.pending.map_values(|b: Build| StepView::Yield(b)) =~= seq![
            StepView::Yield(st.pending[0]),
        ] + next.pending.map_values(|b: Build| StepView::Yield(b)));
    }
}

/// Once a page arrives, the lister hands out every build of it, newest first
/// as the page lists them, and then asks for the page that starts at the
/// smallest build id of this one.
pub proof fn lemma_page_then_next_page(st: ListerState, builds: Seq<Build>)
    ensures
        run_polls(spec_arrive(st, builds), builds.len() + 1).1 == builds.map_values(
            |b: Build| StepView::Yield(b),
        ) + seq![StepView::Fetch(history_path(st.branch, min_id(builds)))],
{
    lemma_drains_then_fetches(spec_arrive(st, builds));
}

/// A lister that has asked for a page waits, and changes nothing, until the
/// page arrives.
pub proof fn lemma_waits_for_page(st: ListerState, n: nat)
    requires
        st.fetching,
        st.pending.len() == 0,
    ensures
        run_polls(st, n).0 == st,
        run_polls(st, n).1 == Seq::new(n, |i: int| StepView::Wait),
    decreases n,
{
    if n > 0 {
        lemma_waits_for_page(st, (n - 1) as nat);
        assert(run_polls(st, n).1 =~= Seq::new(n, |i: int| StepView::Wait));
    }
}

/// What happens to a lister: it is polled, or the page it asked for arrives
/// with these builds.
pub enum ListerEvent {
    Poll,
    Arrive(Seq<Build>),
}

/// The state of a lister in state `st` after the events `evs`, and the steps
/// its polls gave, in order.
pub open spec fn run_events(st: ListerState, evs: Seq<ListerEvent>) -> (ListerState, Seq<StepView>)
    decreases evs.len(),
{
    if evs.len() == 0 {
        (st, seq![])
    } else {
        let (before, steps) = run_events(st, evs.drop_last());
        match evs.last() {
            ListerEvent::Poll => {
                let (after, step) = spec_poll(before);
                (after, steps.push(step))
            },
            ListerEvent::Arrive(builds) => (spec_arrive(before, builds), steps),
        }
    }
}

/// Pages arrive only while one has been asked for.
pub open spec fn arrivals_answer_requests(st: ListerState, evs: Seq<ListerEvent>) -> bool
    decreases evs.len(),
{
    evs.len() == 0 || (arrivals_answer_requests(st, evs.drop_last()) && (evs.last() is Arrive
        ==> run_events(st, evs.drop_last()).0.fetching))
}

/// The builds of all the pages that arrived, page after page.
pub open spec fn arrived_builds(evs: Seq<ListerEvent>) -> Seq<Build>
    decreases evs.len(),
{
    if evs.len() == 0 {
        seq![]
    } else {
        match evs.last() {
            ListerEvent::Poll => arrived_builds(evs.drop_last()),
            ListerEvent::Arrive(builds) => arrived_builds(evs.drop_last()) + builds,
        }
    }
}

/// The builds handed out by the steps, in order.
pub open spec fn yielded_builds(steps: Seq<StepView>) -> Seq<Build>
    decreases steps.len(),
{
    if steps.len() == 0 {
        seq![]
    } else {
        match steps.last() {
            StepView::Yield(b) => yielded_builds(steps.drop_last()).push(b),
            _ => yielded_builds(steps.drop_last()),
        }
    }
}

/// The builds handed out, followed by those still held, are the builds of
/// all the pages that arrived, in order; a lister that has asked for a page
/// holds no build.
proof fn lemma_builds_conserved(st: ListerState, evs: Seq<ListerEvent>)
    requires
        st.pending.len() == 0,
        arrivals_answer_requests(st, evs),
    ensures
        yielded_builds(run_events(st, evs).1) + run_events(st, evs).0.pending == arrived_builds(evs),
        run_events(st, evs).0.fetching ==> run_events(st, evs).0.pending.len() == 0,
        run_events(st, evs).0.branch == st.branch,
    decreases evs.len(),
{
    if evs.len() > 0 {
        let prev = evs.drop_last();
        lemma_builds_conserved(st, prev);
        let (before, steps) = run_events(st, prev);
        match evs.last() {
            ListerEvent::Poll => {
                let (after, step) = spec_poll(before);
                assert(steps.push(step).drop_last() =~= steps);
                assert(steps.push(step).last() == step);
                if before.pending.len() > 0 {
                    assert(yielded_builds(steps.push(step)) == yielded_builds(steps).push(
                        before.pending[0],
                    ));
                    assert(yielded_builds(steps).push(before.pending[0]) + after.pending
                        =~= yielded_builds(steps) + before.pending);
                } else {
                    assert(yielded_builds(steps.push(step)) == yielded_builds(steps));
                }
            },
            ListerEvent::Arrive(builds) => {
                assert(before.pending =~= seq![]);
                assert(yielded_builds(steps) + builds =~= (yielded_builds(steps)
                    + before.pending) + builds);
            },
        }
    }
}

/// Across any number of pages: a lister that starts with nothing, polled
/// whenever the caller likes and handed each page it asks for, hands out
/// exactly the builds of the pages in the order they arrived (each once,
/// none skipped) apart from those of the last page it still holds; and when
/// it asks for a page, it has handed out every build of every page before.
pub proof fn lemma_pages_in_order(st: ListerState, evs: Seq<ListerEvent>)
    requires
        st.pending.len() == 0,
        arrivals_answer_requests(st, evs),
    ensures
        yielded_builds(run_events(st, evs).1) + run_events(st, evs).0.pending == arrived_builds(evs),
        forall|i: int|
            0 <= i < evs.len() && (#[trigger] run_events(st, evs.take(i + 1)).1).len() > 0
                && run_events(st, evs.take(i + 1)).1.last() is Fetch && evs[i] is Poll
                ==> yielded_builds(run_events(st, evs.take(i + 1)).1) == arrived_builds(
                evs.take(i + 1),
            ),
{
    lemma_builds_conserved(st, evs);
    assert forall|i: int|
        0 <= i < evs.len() && (#[trigger] run_events(st, evs.take(i + 1)).1).len() > 0
            && run_events(st, evs.take(i + 1)).1.last() is Fetch && evs[i] is Poll
            implies yielded_builds(run_events(st, evs.take(i + 1)).1) == arrived_builds(
            evs.take(i + 1),
        ) by {
        let pre = evs.take(i + 1);
        lemma_prefix_answers(st, evs, i + 1);
        lemma_builds_conserved(st, pre);
        let prev = pre.drop_last();
        assert(prev =~= evs.take(i));
        let (before, steps) = run_events(st, prev);
        assert(pre.last() == evs[i]);
        let (after, step) = spec_poll(before);
        assert(run_events(st, pre).1 == steps.push(step));
        assert(step is Fetch);
        assert(before.pending.len() == 0);
        assert(after.pending.len() == 0);
        assert(yielded_builds(run_events(st, pre).1) + run_events(st, pre).0.pending
            =~= yielded_builds(run_events(st, pre).1));
    }
}

/// The events up to any point answer requests where all of them do.
proof fn lemma_prefix_answers(st: ListerState, evs: Seq<ListerEvent>, n: int)
    requires
        0 <= n <= evs.len(),
        arrivals_answer_requests(st, evs),
    ensures
        arrivals_answer_requests(st, evs.take(n)),
    decreases evs.len() - n,
{
    if n < evs.len() {
        let prev = evs.drop_last();
        assert(prev.take(n) =~= evs.take(n));
        lemma_prefix_answers(st, prev, n);
    } else {
        assert(evs.take(n) =~= evs);
    }
}

/// The smallest build id of a page is the id of one of its builds, and no
/// build of the page has a smaller one; only an empty page has none.
pub proof fn lemma_min_id(builds: Seq<Build>)
    ensures
        min_id(builds) is None <==> builds.len() == 0,
        min_id(builds) matches Some(m) ==> (exists|i: int|
            0 <= i < builds.len() && (#[trigger] builds[i]).build_id == m) && (forall|i: int|
            0 <= i < builds.len() ==> m <= (#[trigger] builds[i]).build_id),
    decreases builds.len(),
{
    if builds.len() > 0 {
        let prev = builds.drop_last();
        lemma_min_id(prev);
        let id = builds.last().build_id;
        let m = min_id(builds).unwrap();
        assert forall|i: int| 0 <= i < builds.len() implies m <= (#[trigger] builds[i]).build_id by {
            if i < builds.len() - 1 {
                assert(builds[i] == prev[i]);
            }
        }
        if m == id {
            assert(builds[builds.len() - 1].build_id == m);
        } else {
            let j = choose|j: int| 0 <= j < prev.len() && (#[trigger] prev[j]).build_id == m;
            assert(builds[j] == prev[j]);
        }
    }
}

/// A job's log is fetched exactly when its name holds `build=i686` and
/// `x.py test`: a job that does not build on i686 is never fetched, whatever
/// else its name says.
pub proof fn lemma_wanted_jobs(job: Job)
    ensures
        is_wanted(job) <==> (contains_bytes(encode_utf8(job.name@), encode_utf8("build=i686"@))
            && contains_bytes(encode_utf8(job.name@), encode_utf8("x.py test"@))),
        !contains_bytes(encode_utf8(job.name@), encode_utf8("build=i686"@)) ==> !is_wanted(job),
{
}

} // verus!
