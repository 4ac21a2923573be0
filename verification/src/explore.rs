//! Exploration: a curriculum sets tasks, first broad ones in waves, then deep
//! ones step by step, until it has enough or the budget is spent.

use crate::json;
use crate::order::TextMap;
use crate::text;
use vstd::prelude::*;

verus! {

// ── Tasks ──

/// A task that a curriculum sets.
#[derive(Debug, PartialEq)]
pub struct ExploreTask {
    pub id: String,
    pub goal: String,
    pub kind: TaskKind,
    pub plan: String,
    /// By what the outcome is judged.
    pub judge: String,
}

/// A task that a curriculum sets, as values.
pub struct GTask {
    pub id: Seq<char>,
    pub goal: Seq<char>,
    pub kind: TaskKind,
    pub plan: Seq<char>,
    pub judge: Seq<char>,
}

/// Whether a task is one of a wave or a step of its own.
#[derive(Debug, Clone, Copy, PartialEq, Eq, Structural)]
pub enum TaskKind {
    Broad,
    Deep,
}

/// What a curriculum gives in one round.
#[derive(Debug, PartialEq)]
pub struct CurriculumOutput {
    pub tasks: Vec<ExploreTask>,
    /// The gap that the tasks aim at.
    pub gap: String,
    pub stop: bool,
}

/// What a curriculum gives in one round, as values.
pub struct GCurriculum {
    pub tasks: Seq<GTask>,
    pub gap: Seq<char>,
    pub stop: bool,
}

impl ExploreTask {
    pub open spec fn view(&self) -> GTask {
        GTask {
            id: self.id@,
            goal: self.goal@,
            kind: self.kind,
            plan: self.plan@,
            judge: self.judge@,
        }
    }

    /// An equal task of its own.
    pub fn duplicate(&self) -> (r: ExploreTask)
        ensures
            r@ == self@,
    {
        ExploreTask {
            id: self.id.clone(),
            goal: self.goal.clone(),
            kind: self.kind,
            plan: self.plan.clone(),
            judge: self.judge.clone(),
        }
    }
}

/// Tasks as values.
pub open spec fn task_views(v: Seq<ExploreTask>) -> Seq<GTask> {
    v.map_values(|t: ExploreTask| t@)
}

impl CurriculumOutput {
    pub open spec fn view(&self) -> GCurriculum {
        GCurriculum { tasks: task_views(self.tasks@), gap: self.gap@, stop: self.stop }
    }
}

/// The kind that a word stands for.
pub open spec fn kind_of(s: Seq<char>) -> Option<TaskKind> {
    if text::trimmed(s) == "broad"@ {
        Some(TaskKind::Broad)
    } else if text::trimmed(s) == "deep"@ {
        Some(TaskKind::Deep)
    } else {
        None
    }
}

impl TaskKind {
    /// The kind that a word stands for.
    pub fn parse(s: &str) -> (r: Option<TaskKind>)
        ensures
            r == kind_of(s@),
    {
        let t = text::trim(s);
        if text::same(t.as_str(), "broad") {
            Some(TaskKind::Broad)
        } else if text::same(t.as_str(), "deep") {
            Some(TaskKind::Deep)
        } else {
            None
        }
    }
}

// ── Reading a curriculum ──

/// Where the bracket closes that brings the depth to one, from the `i`-th
/// character on: what stands in a string does not count.
pub open spec fn close_from(
    s: Seq<char>,
    i: int,
    open: char,
    close: char,
    depth: int,
    inside: bool,
) -> Option<int>
    decreases s.len() - i,
{
    if i < 0 || i >= s.len() {
        None
    } else if inside {
        if s[i] == '\\' {
            if i + 1 < s.len() {
                close_from(s, i + 2, open, close, depth, true)
            } else {
                None
            }
        } else {
            close_from(s, i + 1, open, close, depth, s[i] != '"')
        }
    } else if s[i] == '"' {
        close_from(s, i + 1, open, close, depth, true)
    } else if s[i] == open {
        close_from(s, i + 1, open, close, depth + 1, false)
    } else if s[i] == close {
        if depth == 1 {
            Some(i)
        } else {
            close_from(s, i + 1, open, close, depth - 1, false)
        }
    } else {
        close_from(s, i + 1, open, close, depth, false)
    }
}

/// The text of a key, where it ends.
pub open spec fn whole_text(s: Seq<char>, key: Seq<char>) -> Option<Seq<char>> {
    match json::text_field(s, key) {
        Some((t, true)) => Some(t),
        _ => None,
    }
}

/// The task of an object, or what is wrong with it.
pub open spec fn task_of(obj: Seq<char>) -> Result<GTask, Seq<char>> {
    match whole_text(obj, "id"@) {
        None => Err("curriculum: task 缺 id"@),
        Some(id) => match whole_text(obj, "goal"@) {
            None => Err("curriculum: task 缺 goal"@),
            Some(goal) => match whole_text(obj, "kind"@) {
                None => Err("curriculum: task 缺 kind"@),
                Some(word) => match kind_of(word) {
                    None => Err(
                        "curriculum: task "@ + id + " kind 非法 "@ + text::debug_quoted(word),
                    ),
                    Some(kind) => match whole_text(obj, "plan"@) {
                        None => Err("curriculum: task 缺 plan"@),
                        Some(plan) => match whole_text(obj, "judge"@) {
                            None => Err("curriculum: task 缺 judge"@),
                            Some(judge) => if text::blank(judge) {
                                Err(
                                    "curriculum: task "@ + id
                                        + " judge 为空（判据必须确定性可判）"@,
                                )
                            } else {
                                Ok(
                                    (GTask {
                                        id: id,
                                        goal: goal,
                                        kind: kind,
                                        plan: plan,
                                        judge: judge,
                                    }),
                                )
                            },
                        },
                    },
                },
            },
        },
    }
}

/// The tasks of a list from its `i`-th character on, or the first thing that is
/// wrong.
pub open spec fn tasks_from(s: Seq<char>, i: int) -> Result<Seq<GTask>, Seq<char>>
    decreases s.len() - i,
{
    match text::find_char_from(s, '{', i) {
        Some(a) if i <= a < s.len() => match close_from(s, a, '{', '}', 0, false) {
            Some(b) if a < b < s.len() => match task_of(s.subrange(a, b + 1)) {
                Err(e) => Err(e),
                Ok(t) => match tasks_from(s, b + 1) {
                    Err(e) => Err(e),
                    Ok(rest) => Ok(seq![t] + rest),
                },
            },
            _ => Err("curriculum: task 对象未闭合"@),
        },
        _ => Ok(Seq::empty()),
    }
}

/// What the object of a curriculum says, or the first thing that is wrong.
pub open spec fn body_of(body: Seq<char>) -> Result<GCurriculum, Seq<char>> {
    let stop = match json::flag_field(body, "stop"@) {
        Some(b) => b,
        None => false,
    };
    let gap = match whole_text(body, "gap"@) {
        Some(t) => t,
        None => Seq::empty(),
    };
    match text::find_str_spec(body, "\"tasks\""@) {
        None => Err("curriculum: 契约缺 tasks 字段"@),
        Some(p) => match text::find_char_from(body, '[', p) {
            None => Err("curriculum: 契约缺 tasks 字段"@),
            Some(a) => match close_from(body, a, '[', ']', 0, false) {
                None => Err("curriculum: tasks 数组未闭合"@),
                Some(b) => match tasks_from(body.subrange(a, b + 1), 0) {
                    Err(e) => Err(e),
                    Ok(tasks) => if tasks.len() == 0 && !stop {
                        Err(
                            "curriculum: 契约违约——tasks 空且 stop=false（要不出题又不说停）"@,
                        )
                    } else {
                        Ok((GCurriculum { tasks: tasks, gap: gap, stop: stop }))
                    },
                },
            },
        },
    }
}

/// What the output of a curriculum says, or the first thing that is wrong.
pub open spec fn curriculum_of(s: Seq<char>) -> Result<GCurriculum, Seq<char>> {
    match text::find_char_spec(s, '{') {
        None => Err("curriculum: 输出无 JSON 对象"@),
        Some(a) => match text::rfind_char_spec(s, '}') {
            Some(b) if b > a => body_of(s.subrange(a, b + 1)),
            _ => Err("curriculum: JSON 对象未闭合"@),
        },
    }
}

/// A result as a value.
pub open spec fn curriculum_result(r: Result<CurriculumOutput, String>) -> Result<
    GCurriculum,
    Seq<char>,
> {
    match r {
        Ok(c) => Ok(c@),
        Err(e) => Err(e@),
    }
}

/// Where the bracket closes that opens at the `a`-th character.
fn find_close(chars: &Vec<char>, a: usize, open: char, close: char) -> (r: Option<usize>)
    requires
        a < chars@.len(),
        open != close,
        open != '"',
        close != '"',
        chars@[a as int] == open,
    ensures
        text::opt_int(r) == close_from(chars@, a as int, open, close, 0, false),
        match r {
            Some(b) => a < b < chars@.len(),
            None => true,
        },
{
    let n: usize = chars.len();
    let ghost all = close_from(chars@, a as int, open, close, 0, false);
    let mut i: usize = a + 1;
    let mut depth: usize = 1;
    let mut inside = false;
    while i < n
        invariant
            a < i <= n,
            n == chars@.len(),
            1 <= depth <= i - a,
            open != close,
            all == close_from(chars@, a as int, open, close, 0, false),
            all == close_from(chars@, i as int, open, close, depth as int, inside),
        decreases n - i,
    {
        let c = chars[i];
        if inside {
            if c == '\\' {
                if i + 1 < n {
                    i += 2;
                } else {
                    return None;
                }
            } else {
                inside = c != '"';
                i += 1;
            }
        } else if c == '"' {
            inside = true;
            i += 1;
        } else if c == open {
            depth += 1;
            i += 1;
        } else if c == close {
            if depth == 1 {
                return Some(i);
            }
            depth -= 1;
            i += 1;
        } else {
            i += 1;
        }
    }
    None
}

/// The text of a key, where it ends.
fn get_whole(s: &str, key: &str) -> (r: Option<String>)
    ensures
        text::opt_view(r) == whole_text(s@, key@),
{
    match json::read_text_field(s, key) {
        Some((t, closed)) => if closed {
            Some(t)
        } else {
            None
        },
        None => None,
    }
}

/// The task of an object, or what is wrong with it.
fn parse_task(obj: &str) -> (r: Result<ExploreTask, String>)
    ensures
        match r {
            Ok(t) => task_of(obj@) == Ok::<GTask, Seq<char>>(t@),
            Err(e) => task_of(obj@) == Err::<GTask, Seq<char>>(e@),
        },
{
    let id = match get_whole(obj, "id") {
        Some(t) => t,
        None => {
            return Err("curriculum: task 缺 id".to_owned());
        },
    };
    let goal = match get_whole(obj, "goal") {
        Some(t) => t,
        None => {
            return Err("curriculum: task 缺 goal".to_owned());
        },
    };
    let word = match get_whole(obj, "kind") {
        Some(t) => t,
        None => {
            return Err("curriculum: task 缺 kind".to_owned());
        },
    };
    let kind = match TaskKind::parse(word.as_str()) {
        Some(k) => k,
        None => {
            let mut m = "curriculum: task ".to_owned();
            m.append(id.as_str());
            m.append(" kind 非法 ");
            m.append(text::debug_quote(word.as_str()).as_str());
            return Err(m);
        },
    };
    let plan = match get_whole(obj, "plan") {
        Some(t) => t,
        None => {
            return Err("curriculum: task 缺 plan".to_owned());
        },
    };
    let judge = match get_whole(obj, "judge") {
        Some(t) => t,
        None => {
            return Err("curriculum: task 缺 judge".to_owned());
        },
    };
    if text::is_blank(judge.as_str()) {
        let mut m = "curriculum: task ".to_owned();
        m.append(id.as_str());
        m.append(" judge 为空（判据必须确定性可判）");
        return Err(m);
    }
    Ok(ExploreTask { id, goal, kind, plan, judge })
}

/// The tasks of a list, or the first thing that is wrong.
fn parse_tasks(list: &str) -> (r: Result<Vec<ExploreTask>, String>)
    ensures
        match r {
            Ok(v) => tasks_from(list@, 0) == Ok::<Seq<GTask>, Seq<char>>(task_views(v@)),
            Err(e) => tasks_from(list@, 0) == Err::<Seq<GTask>, Seq<char>>(e@),
        },
{
    let chars = text::chars_of(list);
    let n: usize = chars.len();
    let mut out: Vec<ExploreTask> = Vec::new();
    let mut i: usize = 0;
    let ghost all = tasks_from(list@, 0);
    proof {
        assert(task_views(out@) =~= Seq::<GTask>::empty());
        match all {
            Ok(rest) => {
                assert(Seq::<GTask>::empty() + rest =~= rest);
            },
            Err(e) => {},
        }
    }
    loop
        invariant
            i <= n,
            n == chars@.len(),
            chars@ == list@,
            all == tasks_from(list@, 0),
            match tasks_from(list@, i as int) {
                Ok(rest) => all == Ok::<Seq<GTask>, Seq<char>>(task_views(out@) + rest),
                Err(e) => all == Err::<Seq<GTask>, Seq<char>>(e),
            },
        decreases n - i,
    {
        let ghost before = task_views(out@);
        proof {
            text::lemma_find_char_from(list@, '{', i as int);
            assert(before + Seq::<GTask>::empty() =~= before);
        }
        match text::find_char_in(chars.as_slice(), '{', i) {
            None => {
                return Ok(out);
            },
            Some(a) => match find_close(&chars, a, '{', '}') {
                None => {
                    return Err("curriculum: task 对象未闭合".to_owned());
                },
                Some(b) => {
                    let obj = text::string_of_range(chars.as_slice(), a, b + 1);
                    match parse_task(obj.as_str()) {
                        Err(e) => {
                            return Err(e);
                        },
                        Ok(t) => {
                            let ghost tv = t@;
                            out.push(t);
                            assert(task_views(out@) =~= before.push(tv));
                            proof {
                                match tasks_from(list@, b + 1) {
                                    Ok(rest) => {
                                        assert(before + (seq![tv] + rest) =~= before.push(tv)
                                            + rest);
                                    },
                                    Err(e) => {},
                                }
                            }
                            i = b + 1;
                        },
                    }
                },
            },
        }
    }
}

/// What the output of a curriculum says, or the first thing that is wrong: text
/// around the object does not count, and an object with no task must say stop.
pub fn parse_curriculum_json(s: &str) -> (r: Result<CurriculumOutput, String>)
    ensures
        curriculum_result(r) == curriculum_of(s@),
{
    let whole = text::chars_of(s);
    let len: usize = whole.len();
    let a = match text::find_char(s, '{') {
        Some(a) => a,
        None => {
            return Err("curriculum: 输出无 JSON 对象".to_owned());
        },
    };
    let b = match text::rfind_char(s, '}') {
        Some(b) => if b > a {
            b
        } else {
            return Err("curriculum: JSON 对象未闭合".to_owned());
        },
        None => {
            return Err("curriculum: JSON 对象未闭合".to_owned());
        },
    };
    proof {
        text::lemma_rfind_char(s@, '}', s@.len() as int);
    }
    let body = text::string_of_range(whole.as_slice(), a, b + 1);
    let stop = match json::read_flag_field(body.as_str(), "stop") {
        Some(x) => x,
        None => false,
    };
    let gap = match get_whole(body.as_str(), "gap") {
        Some(t) => t,
        None => {
            let e = String::new();
            assert(e@ =~= Seq::<char>::empty());
            e
        },
    };
    let chars = text::chars_of(body.as_str());
    let p = match text::find_str(body.as_str(), "\"tasks\"") {
        Some(p) => p,
        None => {
            return Err("curriculum: 契约缺 tasks 字段".to_owned());
        },
    };
    proof {
        text::lemma_find_from(body@, "\"tasks\""@, 0);
    }
    let start = match text::find_char_in(chars.as_slice(), '[', p) {
        Some(i) => i,
        None => {
            return Err("curriculum: 契约缺 tasks 字段".to_owned());
        },
    };
    proof {
        text::lemma_find_char_from(body@, '[', p as int);
    }
    let end = match find_close(&chars, start, '[', ']') {
        Some(i) => i,
        None => {
            return Err("curriculum: tasks 数组未闭合".to_owned());
        },
    };
    let list = text::string_of_range(chars.as_slice(), start, end + 1);
    let tasks = match parse_tasks(list.as_str()) {
        Ok(v) => v,
        Err(e) => {
            return Err(e);
        },
    };
    assert(task_views(tasks@).len() == tasks@.len());
    if tasks.len() == 0 && !stop {
        return Err(
            "curriculum: 契约违约——tasks 空且 stop=false（要不出题又不说停）".to_owned(),
        );
    }
    Ok(CurriculumOutput { tasks, gap, stop })
}

proof fn lemma_tasks_judged(s: Seq<char>, i: int)
    requires
        0 <= i,
        tasks_from(s, i) is Ok,
    ensures
        forall|k: int|
            0 <= k < tasks_from(s, i)->Ok_0.len() ==> !text::blank(
                (#[trigger] tasks_from(s, i)->Ok_0[k]).judge,
            ),
    decreases s.len() - i,
{
    text::lemma_find_char_from(s, '{', i);
    match text::find_char_from(s, '{', i) {
        Some(a) if i <= a < s.len() => {
            match close_from(s, a, '{', '}', 0, false) {
                Some(b) if a < b < s.len() => {
                    lemma_tasks_judged(s, b + 1);
                    let t = task_of(s.subrange(a, b + 1))->Ok_0;
                    let rest = tasks_from(s, b + 1)->Ok_0;
                    assert(tasks_from(s, i)->Ok_0 == seq![t] + rest);
                    assert forall|k: int| 0 <= k < tasks_from(s, i)->Ok_0.len() implies !text::blank(
                        (#[trigger] tasks_from(s, i)->Ok_0[k]).judge,
                    ) by {
                        if k > 0 {
                            assert(tasks_from(s, i)->Ok_0[k] == rest[k - 1]);
                        }
                    }
                },
                _ => {},
            }
        },
        _ => {},
    }
}

/// A curriculum that is accepted sets a task or says stop, and each of its tasks
/// has something to be judged by.
pub proof fn law_curricula_keep_their_word(s: Seq<char>)
    requires
        curriculum_of(s) is Ok,
    ensures
        curriculum_of(s)->Ok_0.tasks.len() > 0 || curriculum_of(s)->Ok_0.stop,
        forall|k: int|
            0 <= k < curriculum_of(s)->Ok_0.tasks.len() ==> !text::blank(
                (#[trigger] curriculum_of(s)->Ok_0.tasks[k]).judge,
            ),
{
    let a = text::find_char_spec(s, '{')->0;
    let b = text::rfind_char_spec(s, '}')->0;
    let body = s.subrange(a, b + 1);
    let p = text::find_str_spec(body, "\"tasks\""@)->0;
    let x = text::find_char_from(body, '[', p)->0;
    let y = close_from(body, x, '[', ']', 0, false)->0;
    lemma_tasks_judged(body.subrange(x, y + 1), 0);
}

// ── The course of an exploration ──

/// How much may be spent.
#[derive(Debug, Clone, Copy)]
pub struct ExploreBudget {
    pub waves: usize,
    pub deep_steps: usize,
}

impl Default for ExploreBudget {
    fn default() -> (r: ExploreBudget)
        ensures
            r.waves == 8,
            r.deep_steps == 12,
    {
        ExploreBudget { waves: 8, deep_steps: 12 }
    }
}

/// Why an exploration came to its end.
#[derive(Debug, PartialEq)]
pub enum ExploreStop {
    Budget,
    CurriculumStop,
    /// The curriculum broke its contract.
    FailClosed(String),
}

/// Why an exploration came to its end, as values.
pub enum GStop {
    Budget,
    CurriculumStop,
    FailClosed(Seq<char>),
}

/// What became of a task.
#[derive(Debug, PartialEq)]
pub enum TaskOutcome {
    Pass { evidence: String },
    /// The task brought a defect to light.
    Fail { evidence: String },
    /// It could not be judged.
    Undecidable { reason: String },
}

/// What became of a task, as values.
pub enum GOutcome {
    Pass(Seq<char>),
    Fail(Seq<char>),
    Undecidable(Seq<char>),
}

impl ExploreStop {
    pub open spec fn view(&self) -> GStop {
        match self {
            ExploreStop::Budget => GStop::Budget,
            ExploreStop::CurriculumStop => GStop::CurriculumStop,
            ExploreStop::FailClosed(e) => GStop::FailClosed(e@),
        }
    }
}

impl TaskOutcome {
    pub open spec fn view(&self) -> GOutcome {
        match self {
            TaskOutcome::Pass { evidence } => GOutcome::Pass(evidence@),
            TaskOutcome::Fail { evidence } => GOutcome::Fail(evidence@),
            TaskOutcome::Undecidable { reason } => GOutcome::Undecidable(reason@),
        }
    }

    /// What became of a task that could not be run.
    pub fn of_error(e: String) -> (r: TaskOutcome)
        ensures
            r@ == GOutcome::Undecidable(e@),
    {
        TaskOutcome::Undecidable { reason: e }
    }
}

/// What an exploration has come to.
#[derive(Debug)]
pub struct ExploreReport {
    pub topic: String,
    pub waves_run: usize,
    pub deep_steps_run: usize,
    /// The kind and the outcome of each task.
    pub results: TextMap<(TaskKind, TaskOutcome)>,
    /// What was kept of it.
    pub consolidated: Vec<String>,
    pub stop_reason: Option<ExploreStop>,
    pub frozen: bool,
}

/// What an exploration has come to, as values.
pub struct GReport {
    pub topic: Seq<char>,
    pub waves_run: int,
    pub deep_steps_run: int,
    pub results: Map<Seq<char>, (TaskKind, GOutcome)>,
    pub consolidated: Seq<Seq<char>>,
    pub stop_reason: Option<GStop>,
    pub frozen: bool,
}

/// Results as values.
pub open spec fn outcome_views(m: TextMap<(TaskKind, TaskOutcome)>) -> Map<
    Seq<char>,
    (TaskKind, GOutcome),
> {
    m@.map_values(|p: (TaskKind, TaskOutcome)| (p.0, p.1@))
}

impl Default for ExploreReport {
    fn default() -> (r: ExploreReport)
        ensures
            r.wf(),
            r@ == empty_report(Seq::empty()),
    {
        let topic = String::new();
        assert(topic@ =~= Seq::<char>::empty());
        ExploreReport::new(topic)
    }
}

/// The report of an exploration that has not begun.
pub open spec fn empty_report(topic: Seq<char>) -> GReport {
    GReport {
        topic: topic,
        waves_run: 0,
        deep_steps_run: 0,
        results: Map::empty(),
        consolidated: Seq::empty(),
        stop_reason: None,
        frozen: false,
    }
}

impl ExploreReport {
    /// The results are well-formed.
    pub open spec fn wf(self) -> bool {
        self.results.wf()
    }

    pub open spec fn view(&self) -> GReport {
        GReport {
            topic: self.topic@,
            waves_run: self.waves_run as int,
            deep_steps_run: self.deep_steps_run as int,
            results: outcome_views(self.results),
            consolidated: text::views(self.consolidated@),
            stop_reason: match self.stop_reason {
                Some(s) => Some(s@),
                None => None,
            },
            frozen: self.frozen,
        }
    }

    /// The report of an exploration that has not begun.
    pub fn new(topic: String) -> (r: ExploreReport)
        ensures
            r.wf(),
            r@ == empty_report(topic@),
    {
        let r = ExploreReport {
            topic,
            waves_run: 0,
            deep_steps_run: 0,
            results: TextMap::new(),
            consolidated: Vec::new(),
            stop_reason: None,
            frozen: false,
        };
        assert(r@.results =~= Map::empty());
        assert(r@.consolidated =~= Seq::<Seq<char>>::empty());
        r
    }

    /// Whether the budget was spent.
    pub fn budget_exhausted(&self) -> (r: bool)
        ensures
            r == (self@.stop_reason == Some(GStop::Budget)),
    {
        match &self.stop_reason {
            Some(ExploreStop::Budget) => true,
            _ => false,
        }
    }

    /// Whether anything was found: something was kept, or a task failed.
    pub fn has_findings(&self) -> (r: bool)
        requires
            self.wf(),
        ensures
            r == found(self@),
    {
        let ghost rv = outcome_views(self.results);
        if self.consolidated.len() > 0 {
            return true;
        }
        assert(self@.consolidated.len() == 0);
        let mut i: usize = 0;
        while i < self.results.len()
            invariant
                i <= self.results.keys().len(),
                self.wf(),
                rv == outcome_views(self.results),
                rv == self@.results,
                self@.consolidated.len() == 0,
                forall|k: int|
                    0 <= k < i ==> !(rv[#[trigger] self.results.keys()[k]].1 is Fail),
            decreases self.results.keys().len() - i,
        {
            proof {
                self.results.lemma_entry(i as int);
            }
            match &self.results.value_at(i).1 {
                TaskOutcome::Fail { evidence } => {
                    let ghost key = self.results.keys()[i as int];
                    assert(rv.dom().contains(key) && rv[key].1 is Fail);
                    return true;
                },
                _ => {},
            }
            i += 1;
        }
        proof {
            assert forall|k: Seq<char>| #[trigger] rv.dom().contains(k) implies !(rv[k].1 is Fail) by {
                assert(self.results@.dom().contains(k));
                assert(self.results.keys().contains(k));
                let j = choose|j: int| 0 <= j < self.results.keys().len() && self.results.keys()[j] == k;
                assert(!(rv[self.results.keys()[j]].1 is Fail));
            }
        }
        false
    }
}

/// Whether anything was found: something was kept, or a task failed.
pub open spec fn found(r: GReport) -> bool {
    r.consolidated.len() > 0 || exists|k: Seq<char>| #[trigger]
        r.results.dom().contains(k) && r.results[k].1 is Fail
}

/// Which parts of an exploration are wanted.
#[derive(Debug, Clone, Copy, PartialEq, Eq, Structural)]
pub struct Stages {
    pub brs: bool,
    pub drs: bool,
}

impl Default for Stages {
    fn default() -> (r: Stages)
        ensures
            r == (Stages { brs: true, drs: true }),
    {
        Stages { brs: true, drs: true }
    }
}

/// The parts that the first `n` words ask for, or what is wrong with one.
pub open spec fn stages_until(parts: Seq<Seq<char>>, n: int) -> Result<Stages, Seq<char>>
    decreases n,
{
    if n <= 0 {
        Ok((Stages { brs: false, drs: false }))
    } else {
        match stages_until(parts, n - 1) {
            Err(e) => Err(e),
            Ok(s) => if text::trimmed(parts[n - 1]) == "brs"@ {
                Ok((Stages { brs: true, drs: s.drs }))
            } else if text::trimmed(parts[n - 1]) == "drs"@ {
                Ok((Stages { brs: s.brs, drs: true }))
            } else {
                Err("explore: stages 非法 "@ + text::debug_quoted(text::trimmed(parts[n - 1])))
            },
        }
    }
}

/// The parts that a list asks for: all where it is empty.
pub open spec fn stages_of(s: Seq<char>) -> Result<Stages, Seq<char>> {
    if text::blank(s) {
        Ok((Stages { brs: true, drs: true }))
    } else {
        let parts = text::split_char_spec(s, ',');
        stages_until(parts, parts.len() as int)
    }
}

proof fn lemma_stages_err(parts: Seq<Seq<char>>, n: int, m: int)
    requires
        n <= m,
        stages_until(parts, n) is Err,
    ensures
        stages_until(parts, m) == stages_until(parts, n),
    decreases m - n,
{
    if n < m {
        lemma_stages_err(parts, n, m - 1);
    }
}

impl Stages {
    /// The parts that a list asks for, or what is wrong with it.
    pub fn parse(s: &str) -> (r: Result<Stages, String>)
        ensures
            match r {
                Ok(x) => stages_of(s@) == Ok::<Stages, Seq<char>>(x),
                Err(e) => stages_of(s@) == Err::<Stages, Seq<char>>(e@),
            },
    {
        if text::is_blank(s) {
            return Ok(Stages { brs: true, drs: true });
        }
        let parts = text::split_char(s, ',');
        let ghost pv = text::views(parts@);
        let mut st = Stages { brs: false, drs: false };
        let mut i: usize = 0;
        while i < parts.len()
            invariant
                i <= parts@.len(),
                pv == text::views(parts@),
                pv == text::split_char_spec(s@, ','),
                !text::blank(s@),
                stages_until(pv, i as int) == Ok::<Stages, Seq<char>>(st),
            decreases parts@.len() - i,
        {
            let t = text::trim(parts[i].as_str());
            assert(t@ == text::trimmed(pv[i as int]));
            if text::same(t.as_str(), "brs") {
                st.brs = true;
            } else if text::same(t.as_str(), "drs") {
                st.drs = true;
            } else {
                let mut m = "explore: stages 非法 ".to_owned();
                m.append(text::debug_quote(t.as_str()).as_str());
                proof {
                    lemma_stages_err(pv, i + 1, pv.len() as int);
                }
                return Err(m);
            }
            i += 1;
        }
        Ok(st)
    }
}

/// Where an exploration stands.
#[derive(Debug)]
pub enum At {
    /// The curriculum is to set the next wave.
    BroadAsk,
    /// The task at this place of the wave is to be run.
    BroadRun(Vec<ExploreTask>, usize),
    /// The curriculum is to set the next step.
    DeepAsk,
    /// The task is to be run.
    DeepRun(ExploreTask),
    /// Nothing is to be done any more.
    Over,
}

/// Where an exploration stands, as values.
pub enum GAt {
    BroadAsk,
    BroadRun(Seq<GTask>, int),
    DeepAsk,
    DeepRun(GTask),
    Over,
}

impl At {
    pub open spec fn view(&self) -> GAt {
        match self {
            At::BroadAsk => GAt::BroadAsk,
            At::BroadRun(t, i) => GAt::BroadRun(task_views(t@), *i as int),
            At::DeepAsk => GAt::DeepAsk,
            At::DeepRun(t) => GAt::DeepRun(t@),
            At::Over => GAt::Over,
        }
    }
}

/// An exploration.
#[derive(Debug)]
pub struct Explore {
    pub budget: ExploreBudget,
    pub stages: Stages,
    pub report: ExploreReport,
    pub at: At,
}

/// An exploration, as values.
pub struct GExplore {
    pub waves: int,
    pub deep_steps: int,
    pub stages: Stages,
    pub report: GReport,
    pub at: GAt,
}

/// What an exploration needs next.
#[derive(Debug)]
pub enum Need {
    /// A round of the curriculum.
    Curriculum,
    /// What became of a task.
    Outcome(ExploreTask),
    /// Nothing.
    Nothing,
}

/// Where an exploration goes once its waves are over.
pub open spec fn to_deep(e: GExplore) -> GExplore {
    GExplore {
        at: if e.stages.drs && e.report.deep_steps_run < e.deep_steps {
            GAt::DeepAsk
        } else {
            GAt::Over
        },
        ..e
    }
}

/// Where an exploration goes between two waves.
pub open spec fn to_broad(e: GExplore) -> GExplore {
    if e.stages.brs && e.report.waves_run < e.waves {
        GExplore { at: GAt::BroadAsk, ..e }
    } else {
        to_deep(e)
    }
}

/// An exploration that begins.
pub open spec fn begun(topic: Seq<char>, budget: ExploreBudget, stages: Stages) -> GExplore {
    to_broad(
        (GExplore {
            waves: budget.waves as int,
            deep_steps: budget.deep_steps as int,
            stages: stages,
            report: empty_report(topic),
            at: GAt::Over,
        }),
    )
}

/// The exploration with this reason to stop.
pub open spec fn stopping(e: GExplore, why: GStop) -> GExplore {
    GExplore { report: (GReport { stop_reason: Some(why), ..e.report }), ..e }
}

/// The broad ones of the first `n` tasks.
pub open spec fn broad_of(tasks: Seq<GTask>, n: int) -> Seq<GTask>
    decreases n,
{
    if n <= 0 {
        Seq::empty()
    } else if tasks[n - 1].kind == TaskKind::Broad {
        broad_of(tasks, n - 1).push(tasks[n - 1])
    } else {
        broad_of(tasks, n - 1)
    }
}

/// The place of the first deep task from the `i`-th on.
pub open spec fn deep_from(tasks: Seq<GTask>, i: int) -> Option<int>
    decreases tasks.len() - i,
{
    if i >= tasks.len() {
        None
    } else if tasks[i].kind == TaskKind::Deep {
        Some(i)
    } else {
        deep_from(tasks, i + 1)
    }
}

/// An exploration after a round of its curriculum: a broken contract ends it,
/// and so does a round that sets no step; a round that sets no wave ends the
/// waves.
pub open spec fn after_round(e: GExplore, round: Result<GCurriculum, Seq<char>>) -> GExplore {
    match e.at {
        GAt::BroadAsk => match round {
            Err(x) => GExplore { at: GAt::Over, ..stopping(e, GStop::FailClosed(x)) },
            Ok(c) => if c.stop {
                to_deep(stopping(e, GStop::CurriculumStop))
            } else if broad_of(c.tasks, c.tasks.len() as int).len() == 0 {
                to_deep(e)
            } else {
                GExplore {
                    at: GAt::BroadRun(broad_of(c.tasks, c.tasks.len() as int), 0),
                    ..e
                }
            },
        },
        GAt::DeepAsk => match round {
            Err(x) => GExplore { at: GAt::Over, ..stopping(e, GStop::FailClosed(x)) },
            Ok(c) => if c.stop {
                GExplore { at: GAt::Over, ..stopping(e, GStop::CurriculumStop) }
            } else {
                match deep_from(c.tasks, 0) {
                    None => GExplore { at: GAt::Over, ..e },
                    Some(i) => GExplore { at: GAt::DeepRun(c.tasks[i]), ..e },
                }
            },
        },
        _ => e,
    }
}

/// An exploration with the outcome of a task on record.
pub open spec fn recorded(e: GExplore, t: GTask, o: GOutcome) -> GExplore {
    GExplore {
        report: (GReport { results: e.report.results.insert(t.id, (t.kind, o)), ..e.report }),
        ..e
    }
}

/// An exploration with one more wave, or one more step, on record.
pub open spec fn counted(e: GExplore, waves: int, steps: int) -> GExplore {
    GExplore {
        report: (GReport {
            waves_run: e.report.waves_run + waves,
            deep_steps_run: e.report.deep_steps_run + steps,
            ..e.report
        }),
        ..e
    }
}

/// An exploration after the outcome of a task.
pub open spec fn after_outcome(e: GExplore, o: GOutcome) -> GExplore {
    match e.at {
        GAt::BroadRun(tasks, i) => {
            let f = recorded(e, tasks[i], o);
            if i + 1 < tasks.len() {
                GExplore { at: GAt::BroadRun(tasks, i + 1), ..f }
            } else {
                let g = counted(f, 1, 0);
                if g.report.waves_run >= e.waves {
                    to_deep(stopping(g, GStop::Budget))
                } else {
                    GExplore { at: GAt::BroadAsk, ..g }
                }
            }
        },
        GAt::DeepRun(t) => {
            let g = counted(recorded(e, t, o), 0, 1);
            if g.report.deep_steps_run >= e.deep_steps {
                GExplore { at: GAt::Over, ..stopping(g, GStop::Budget) }
            } else {
                GExplore { at: GAt::DeepAsk, ..g }
            }
        },
        _ => e,
    }
}

/// Where an exploration can stand with what it has spent.
pub open spec fn sound(e: GExplore) -> bool {
    &&& 0 <= e.report.waves_run <= e.waves
    &&& 0 <= e.report.deep_steps_run <= e.deep_steps
    &&& match e.at {
        GAt::BroadAsk => e.stages.brs && e.report.waves_run < e.waves && e.report.deep_steps_run
            == 0,
        GAt::BroadRun(tasks, i) => e.stages.brs && e.report.waves_run < e.waves
            && e.report.deep_steps_run == 0 && 0 <= i < tasks.len(),
        GAt::DeepAsk => e.stages.drs && e.report.deep_steps_run < e.deep_steps,
        GAt::DeepRun(t) => e.stages.drs && e.report.deep_steps_run < e.deep_steps,
        GAt::Over => true,
    }
}

/// A budget that was spent to the end is on record as the reason.
pub open spec fn budget_shown(e: GExplore) -> bool {
    &&& e.at is Over && e.stages.drs && e.deep_steps > 0 && e.report.deep_steps_run
        == e.deep_steps ==> e.report.stop_reason == Some(GStop::Budget)
    &&& e.at is Over && e.stages.brs && !e.stages.drs && e.waves > 0 && e.report.waves_run
        == e.waves ==> e.report.stop_reason == Some(GStop::Budget)
}

impl Explore {
    pub open spec fn view(&self) -> GExplore {
        GExplore {
            waves: self.budget.waves as int,
            deep_steps: self.budget.deep_steps as int,
            stages: self.stages,
            report: self.report@,
            at: self.at@,
        }
    }

    /// The report is well-formed and the place fits what was spent.
    pub open spec fn wf(self) -> bool {
        self.report.wf() && sound(self@)
    }

    /// Begins an exploration.
    pub fn start(topic: &str, budget: ExploreBudget, stages: Stages) -> (r: Explore)
        ensures
            r.wf(),
            r@ == begun(topic@, budget, stages),
    {
        let report = ExploreReport::new(topic.to_owned());
        let at = if stages.brs && 0 < budget.waves {
            At::BroadAsk
        } else if stages.drs && 0 < budget.deep_steps {
            At::DeepAsk
        } else {
            At::Over
        };
        Explore { budget, stages, report, at }
    }

    /// What the exploration needs next.
    pub fn need(&self) -> (r: Need)
        requires
            self.wf(),
        ensures
            match self@.at {
                GAt::BroadAsk | GAt::DeepAsk => r is Curriculum,
                GAt::BroadRun(tasks, i) => r matches Need::Outcome(t) && t@ == tasks[i],
                GAt::DeepRun(t0) => r matches Need::Outcome(t) && t@ == t0,
                GAt::Over => r is Nothing,
            },
    {
        match &self.at {
            At::BroadAsk => Need::Curriculum,
            At::DeepAsk => Need::Curriculum,
            At::BroadRun(tasks, i) => {
                assert(task_views(tasks@).len() == tasks@.len());
                Need::Outcome(tasks[*i].duplicate())
            },
            At::DeepRun(t) => Need::Outcome(t.duplicate()),
            At::Over => Need::Nothing,
        }
    }

    /// Goes on once the waves are over.
    fn go_deep(&mut self)
        ensures
            final(self)@ == to_deep(old(self)@),
            final(self).report == old(self).report,
    {
        if self.stages.drs && self.report.deep_steps_run < self.budget.deep_steps {
            self.at = At::DeepAsk;
        } else {
            self.at = At::Over;
        }
    }

    /// Takes a round of the curriculum.
    pub fn take_round(&mut self, round: Result<CurriculumOutput, String>)
        requires
            old(self).wf(),
        ensures
            final(self).wf(),
            final(self)@ == after_round(old(self)@, curriculum_result(round)),
    {
        match &self.at {
            At::BroadAsk => match round {
                Err(e) => {
                    self.report.stop_reason = Some(ExploreStop::FailClosed(e));
                    self.at = At::Over;
                },
                Ok(c) => {
                    if c.stop {
                        self.report.stop_reason = Some(ExploreStop::CurriculumStop);
                        self.go_deep();
                    } else {
                        let broad = broad_tasks(&c.tasks);
                        assert(task_views(broad@).len() == broad@.len());
                        assert(task_views(c.tasks@).len() == c.tasks@.len());
                        if broad.len() == 0 {
                            self.go_deep();
                        } else {
                            self.at = At::BroadRun(broad, 0);
                        }
                    }
                },
            },
            At::DeepAsk => match round {
                Err(e) => {
                    self.report.stop_reason = Some(ExploreStop::FailClosed(e));
                    self.at = At::Over;
                },
                Ok(c) => {
                    if c.stop {
                        self.report.stop_reason = Some(ExploreStop::CurriculumStop);
                        self.at = At::Over;
                    } else {
                        match first_deep(&c.tasks) {
                            None => {
                                self.at = At::Over;
                            },
                            Some(i) => {
                                self.at = At::DeepRun(c.tasks[i].duplicate());
                            },
                        }
                    }
                },
            },
            _ => {},
        }
    }

    /// Puts the outcome of a task on record.
    fn record(&mut self, t: &ExploreTask, o: TaskOutcome)
        requires
            old(self).report.wf(),
        ensures
            final(self).report.wf(),
            final(self)@ == recorded(old(self)@, t@, o@),
            final(self).at == old(self).at,
            final(self).budget == old(self).budget,
            final(self).stages == old(self).stages,
            final(self).report.waves_run == old(self).report.waves_run,
            final(self).report.deep_steps_run == old(self).report.deep_steps_run,
    {
        let ghost before = outcome_views(self.report.results);
        let ghost ov = o@;
        self.report.results.insert(t.id.clone(), (t.kind, o));
        assert(outcome_views(self.report.results) =~= before.insert(t.id@, (t.kind, ov)));
    }

    /// Takes the outcome of the task that is to be run.
    pub fn take_outcome(&mut self, o: TaskOutcome)
        requires
            old(self).wf(),
        ensures
            final(self).wf(),
            final(self)@ == after_outcome(old(self)@, o@),
    {
        let mut at = At::Over;
        std::mem::swap(&mut at, &mut self.at);
        match at {
            At::BroadRun(tasks, i) => {
                assert(task_views(tasks@).len() == tasks@.len());
                let n: usize = tasks.len();
                self.record(&tasks[i], o);
                if i + 1 < n {
                    self.at = At::BroadRun(tasks, i + 1);
                } else {
                    self.report.waves_run = self.report.waves_run + 1;
                    if self.report.waves_run >= self.budget.waves {
                        self.report.stop_reason = Some(ExploreStop::Budget);
                        self.go_deep();
                    } else {
                        self.at = At::BroadAsk;
                    }
                }
            },
            At::DeepRun(t) => {
                self.record(&t, o);
                self.report.deep_steps_run = self.report.deep_steps_run + 1;
                if self.report.deep_steps_run >= self.budget.deep_steps {
                    self.report.stop_reason = Some(ExploreStop::Budget);
                    self.at = At::Over;
                } else {
                    self.at = At::DeepAsk;
                }
            },
            other => {
                self.at = other;
            },
        }
    }
}

/// The broad ones of the tasks.
fn broad_tasks(tasks: &Vec<ExploreTask>) -> (r: Vec<ExploreTask>)
    ensures
        task_views(r@) == broad_of(task_views(tasks@), tasks@.len() as int),
{
    let ghost tv = task_views(tasks@);
    let mut out: Vec<ExploreTask> = Vec::new();
    let mut i: usize = 0;
    assert(task_views(out@) =~= Seq::<GTask>::empty());
    while i < tasks.len()
        invariant
            i <= tasks@.len(),
            tv == task_views(tasks@),
            task_views(out@) == broad_of(tv, i as int),
        decreases tasks@.len() - i,
    {
        assert(tv[i as int] == tasks@[i as int]@);
        if tasks[i].kind == TaskKind::Broad {
            let ghost before = out@;
            out.push(tasks[i].duplicate());
            assert(task_views(out@) =~= task_views(before).push(tv[i as int]));
        }
        i += 1;
    }
    out
}

/// The place of the first deep task.
fn first_deep(tasks: &Vec<ExploreTask>) -> (r: Option<usize>)
    ensures
        text::opt_int(r) == deep_from(task_views(tasks@), 0),
        match r {
            Some(i) => i < tasks@.len(),
            None => true,
        },
{
    let ghost tv = task_views(tasks@);
    let mut i: usize = 0;
    while i < tasks.len()
        invariant
            i <= tasks@.len(),
            tv == task_views(tasks@),
            deep_from(tv, 0) == deep_from(tv, i as int),
        decreases tasks@.len() - i,
    {
        assert(tv[i as int] == tasks@[i as int]@);
        if tasks[i].kind == TaskKind::Deep {
            return Some(i);
        }
        i += 1;
    }
    None
}

// ── Laws ──

/// An exploration never spends more than its budget, and one that spends it to
/// the end says so.
pub proof fn law_budgets_are_kept(
    topic: Seq<char>,
    budget: ExploreBudget,
    stages: Stages,
    e: GExplore,
    round: Result<GCurriculum, Seq<char>>,
    o: GOutcome,
)
    ensures
        sound(begun(topic, budget, stages)) && budget_shown(begun(topic, budget, stages)),
        sound(e) && budget_shown(e) ==> sound(after_round(e, round)) && budget_shown(
            after_round(e, round),
        ),
        sound(e) && budget_shown(e) ==> sound(after_outcome(e, o)) && budget_shown(
            after_outcome(e, o),
        ),
{
}

/// How much of an exploration is left: its stage, what the stage may still spend,
/// whether the curriculum is to be asked, and the tasks of the wave.
pub open spec fn left(e: GExplore) -> (int, int, int, int) {
    match e.at {
        GAt::BroadAsk => (2, e.waves - e.report.waves_run, 1, 0),
        GAt::BroadRun(tasks, i) => (2, e.waves - e.report.waves_run, 0, tasks.len() - i),
        GAt::DeepAsk => (1, e.deep_steps - e.report.deep_steps_run, 1, 0),
        GAt::DeepRun(t) => (1, e.deep_steps - e.report.deep_steps_run, 0, 0),
        GAt::Over => (0, 0, 0, 0),
    }
}

/// Whether less is left, the first difference being what counts.
pub open spec fn less_left(a: (int, int, int, int), b: (int, int, int, int)) -> bool {
    ||| a.0 < b.0
    ||| a.0 == b.0 && a.1 < b.1
    ||| a.0 == b.0 && a.1 == b.1 && a.2 < b.2
    ||| a.0 == b.0 && a.1 == b.1 && a.2 == b.2 && a.3 < b.3
}

/// Every answer brings an exploration nearer to its end.
pub proof fn law_explorations_end(
    e: GExplore,
    round: Result<GCurriculum, Seq<char>>,
    o: GOutcome,
)
    requires
        sound(e),
    ensures
        e.at is BroadAsk || e.at is DeepAsk ==> less_left(left(after_round(e, round)), left(e)),
        e.at is BroadRun || e.at is DeepRun ==> less_left(left(after_outcome(e, o)), left(e)),
        left(e).1 >= 0 && left(e).2 >= 0 && left(e).3 >= 0,
{
}

/// A curriculum that breaks its contract ends the exploration at once, with the
/// reason on record and nothing spent.
pub proof fn law_broken_contracts_stop(e: GExplore, why: Seq<char>)
    requires
        e.at is BroadAsk || e.at is DeepAsk,
    ensures
        after_round(e, Err(why)).at is Over,
        after_round(e, Err(why)).report.stop_reason == Some(GStop::FailClosed(why)),
        after_round(e, Err(why)).report.waves_run == e.report.waves_run,
        after_round(e, Err(why)).report.deep_steps_run == e.report.deep_steps_run,
        after_round(e, Err(why)).report.results == e.report.results,
{
}

} // verus!
