use crate::errors::ConfigError;
use chrono::{Month, Weekday};
use std::collections::HashSet;
use std::path::PathBuf;
use vstd::prelude::*;

verus! {

#[verifier::external_type_specification]
#[verifier::external_body]
pub struct ExWeekday(Weekday);

#[verifier::external_type_specification]
#[verifier::external_body]
pub struct ExMonth(Month);

#[verifier::external_type_specification]
#[verifier::external_body]
pub struct ExPathBuf(PathBuf);

/// The deepest import nesting that is still read: the root file is at depth 0.
pub const MAX_IMPORT_DEPTH: u8 = 2;

/// A whole configuration: the dated messages, how to show several at once,
/// the first day of the week, and further files to import.
#[derive(Debug, PartialEq, Eq)]
pub struct Config {
    pub dates: Vec<TimeRangeMessage>,
    pub multiple_behavior: Option<MultipleBehavior>,
    pub week_start_day: Option<Weekday>,
    pub imports: Vec<PathBuf>,
}

/// A message or command shown in a time range, under an optional condition.
#[derive(Debug, Default, PartialEq, Eq)]
pub struct TimeRangeMessage {
    pub message: Option<String>,
    pub command: Option<CustomCommand>,
    pub time: Option<TimeRange>,
    pub condition: Option<RunCondition>,
    pub merge_strategy: MergeStrategy,
}

/// A condition given by a shell command and/or a predicate.
#[derive(Debug, Default, PartialEq, Eq)]
pub struct RunCondition {
    pub shell: Option<CustomCommand>,
    pub predicate: Option<String>,
    pub merge_strategy: MergeStrategy,
}

/// How two conditions combine.
#[derive(Debug, Default, PartialEq, Eq)]
pub enum MergeStrategy {
    AND,
    #[default]
    OR,
    XOR,
    NAND,
    NOR,
}

/// A command to run, with an optional shell and its flags.
#[derive(Debug, Default, PartialEq, Eq)]
pub struct CustomCommand {
    pub run: String,
    pub shell: Option<String>,
    pub shell_flags: Option<Vec<String>>,
}

/// The days, weeks, months and years in which a message applies.
#[derive(Debug, Default, PartialEq, Eq)]
pub struct TimeRange {
    pub day_of: Option<DayOf>,
    pub week: Option<HashSet<u32>>,
    pub month: Option<HashSet<Month>>,
    pub year: Option<HashSet<i32>>,
}

/// Days given as weekdays or as days of the month.
#[derive(Debug, PartialEq, Eq)]
pub enum DayOf {
    Week(HashSet<Weekday>),
    Month(HashSet<u8>),
}

/// What to show when several messages apply at once.
#[derive(Debug, PartialEq, Eq)]
pub enum MultipleBehavior {
    First,
    Last,
    All { seperator: String },
    Random,
}

impl Default for MultipleBehavior {
    /// Show all, with no separator.
    fn default() -> (r: Self)
        ensures
            r matches MultipleBehavior::All { seperator } && seperator@ == Seq::<char>::empty(),
    {
        MultipleBehavior::All { seperator: String::new() }
    }
}

// ---------------------------------------------------------------------
// Mathematical values: sets by their elements, lists by their items
// ---------------------------------------------------------------------

pub struct CustomCommandView {
    pub run: String,
    pub shell: Option<String>,
    pub shell_flags: Option<Seq<String>>,
}

impl View for CustomCommand {
    type V = CustomCommandView;

    open spec fn view(&self) -> CustomCommandView {
        CustomCommandView {
            run: self.run,
            shell: self.shell,
            shell_flags: match self.shell_flags {
                Some(f) => Some(f@),
                None => None,
            },
        }
    }
}

pub open spec fn opt_command_view(c: Option<CustomCommand>) -> Option<CustomCommandView> {
    match c {
        Some(c) => Some(c@),
        None => None,
    }
}

pub struct RunConditionView {
    pub shell: Option<CustomCommandView>,
    pub predicate: Option<String>,
    pub merge_strategy: MergeStrategy,
}

impl View for RunCondition {
    type V = RunConditionView;

    open spec fn view(&self) -> RunConditionView {
        RunConditionView {
            shell: opt_command_view(self.shell),
            predicate: self.predicate,
            merge_strategy: self.merge_strategy,
        }
    }
}

pub enum DayOfView {
    Week(Set<Weekday>),
    Month(Set<u8>),
}

impl View for DayOf {
    type V = DayOfView;

    open spec fn view(&self) -> DayOfView {
        match self {
            DayOf::Week(days) => DayOfView::Week(days@),
            DayOf::Month(days) => DayOfView::Month(days@),
        }
    }
}

pub struct TimeRangeView {
    pub day_of: Option<DayOfView>,
    pub week: Option<Set<u32>>,
    pub month: Option<Set<Month>>,
    pub year: Option<Set<i32>>,
}

impl View for TimeRange {
    type V = TimeRangeView;

    open spec fn view(&self) -> TimeRangeView {
        TimeRangeView {
            day_of: match self.day_of {
                Some(d) => Some(d@),
                None => None,
            },
            week: match self.week {
                Some(s) => Some(s@),
                None => None,
            },
            month: match self.month {
                Some(s) => Some(s@),
                None => None,
            },
            year: match self.year {
                Some(s) => Some(s@),
                None => None,
            },
        }
    }
}

pub struct TimeRangeMessageView {
    pub message: Option<String>,
    pub command: Option<CustomCommandView>,
    pub time: Option<TimeRangeView>,
    pub condition: Option<RunConditionView>,
    pub merge_strategy: MergeStrategy,
}

impl View for TimeRangeMessage {
    type V = TimeRangeMessageView;

    open spec fn view(&self) -> TimeRangeMessageView {
        TimeRangeMessageView {
            message: self.message,
            command: opt_command_view(self.command),
            time: match self.time {
                Some(t) => Some(t@),
                None => None,
            },
            condition: match self.condition {
                Some(c) => Some(c@),
                None => None,
            },
            merge_strategy: self.merge_strategy,
        }
    }
}

// ---------------------------------------------------------------------
// Copies
// ---------------------------------------------------------------------

/// `HashSet::clone` of std, on sets of `Copy` elements: each element is
/// cloned, which for a `Copy` type is a copy, so the clone holds the same
/// elements.
#[verifier::external_body]
fn copy_set<T: Copy>(s: &HashSet<T>) -> (r: HashSet<T>)
    ensures
        r@ == s@,
{
    s.clone()
}

/// `PathBuf::clone` of std: a path buffer holding the same path.
pub assume_specification[ <PathBuf as Clone>::clone ](p: &PathBuf) -> (r: PathBuf)
    ensures
        r == *p,
;

fn clone_opt_string(s: &Option<String>) -> (r: Option<String>)
    ensures
        r == *s,
{
    match s {
        Some(x) => Some(x.clone()),
        None => None,
    }
}

impl Clone for MergeStrategy {
    fn clone(&self) -> (r: Self)
        ensures
            r == *self,
    {
        match self {
            MergeStrategy::AND => MergeStrategy::AND,
            MergeStrategy::OR => MergeStrategy::OR,
            MergeStrategy::XOR => MergeStrategy::XOR,
            MergeStrategy::NAND => MergeStrategy::NAND,
            MergeStrategy::NOR => MergeStrategy::NOR,
        }
    }
}

impl Clone for MultipleBehavior {
    fn clone(&self) -> (r: Self)
        ensures
            r == *self,
    {
        match self {
            MultipleBehavior::First => MultipleBehavior::First,
            MultipleBehavior::Last => MultipleBehavior::Last,
            MultipleBehavior::All { seperator } => MultipleBehavior::All { seperator: seperator.clone() },
            MultipleBehavior::Random => MultipleBehavior::Random,
        }
    }
}

impl Clone for CustomCommand {
    fn clone(&self) -> (r: Self)
        ensures
            r@ == self@,
    {
        CustomCommand {
            run: self.run.clone(),
            shell: clone_opt_string(&self.shell),
            shell_flags: match &self.shell_flags {
                Some(f) => Some(f.clone()),
                None => None,
            },
        }
    }
}

fn clone_opt_command(c: &Option<CustomCommand>) -> (r: Option<CustomCommand>)
    ensures
        opt_command_view(r) == opt_command_view(*c),
{
    match c {
        Some(x) => Some(x.clone()),
        None => None,
    }
}

impl Clone for RunCondition {
    fn clone(&self) -> (r: Self)
        ensures
            r@ == self@,
    {
        RunCondition {
            shell: clone_opt_command(&self.shell),
            predicate: clone_opt_string(&self.predicate),
            merge_strategy: self.merge_strategy.clone(),
        }
    }
}

impl Clone for DayOf {
    fn clone(&self) -> (r: Self)
        ensures
            r@ == self@,
    {
        match self {
            DayOf::Week(days) => DayOf::Week(copy_set(days)),
            DayOf::Month(days) => DayOf::Month(copy_set(days)),
        }
    }
}

impl Clone for TimeRange {
    fn clone(&self) -> (r: Self)
        ensures
            r@ == self@,
    {
        TimeRange {
            day_of: match &self.day_of {
                Some(d) => Some(d.clone()),
                None => None,
            },
            week: match &self.week {
                Some(w) => Some(copy_set(w)),
                None => None,
            },
            month: match &self.month {
                Some(m) => Some(copy_set(m)),
                None => None,
            },
            year: match &self.year {
                Some(y) => Some(copy_set(y)),
                None => None,
            },
        }
    }
}

impl Clone for TimeRangeMessage {
    fn clone(&self) -> (r: Self)
        ensures
            r@ == self@,
    {
        TimeRangeMessage {
            message: clone_opt_string(&self.message),
            command: clone_opt_command(&self.command),
            time: match &self.time {
                Some(t) => Some(t.clone()),
                None => None,
            },
            condition: match &self.condition {
                Some(c) => Some(c.clone()),
                None => None,
            },
            merge_strategy: self.merge_strategy.clone(),
        }
    }
}

impl Clone for Config {
    fn clone(&self) -> (r: Self)
        ensures
            r@ == self@,
    {
        let mut dates: Vec<TimeRangeMessage> = Vec::new();
        let n = self.dates.len();
        for i in 0..n
            invariant
                n == self.dates@.len(),
                dates@.len() == i,
                forall|j: int| 0 <= j < i ==> #[trigger] dates@[j]@ == self.dates@[j]@,
        {
            dates.push(self.dates[i].clone());
        }
        let mut imports: Vec<PathBuf> = Vec::new();
        let m = self.imports.len();
        for i in 0..m
            invariant
                m == self.imports@.len(),
                imports@.len() == i,
                forall|j: int| 0 <= j < i ==> #[trigger] imports@[j] == self.imports@[j],
        {
            imports.push(self.imports[i].clone());
        }
        let r = Config {
            dates,
            multiple_behavior: match &self.multiple_behavior {
                Some(b) => Some(b.clone()),
                None => None,
            },
            week_start_day: self.week_start_day,
            imports,
        };
        assert(r@.dates =~= self@.dates);
        assert(r@.imports =~= self@.imports);
        r
    }
}

impl Default for Config {
    /// No dates, no settings and no imports.
    fn default() -> (r: Self)
        ensures
            r@ == empty_config(),
    {
        let r = Config {
            dates: Vec::new(),
            multiple_behavior: None,
            week_start_day: None,
            imports: Vec::new(),
        };
        assert(r@.dates =~= Seq::<TimeRangeMessageView>::empty());
        assert(r@.imports =~= Seq::<PathBuf>::empty());
        r
    }
}

/// The configuration with no dates, no settings and no imports.
pub open spec fn empty_config() -> ConfigView {
    ConfigView {
        dates: Seq::empty(),
        multiple_behavior: None,
        week_start_day: None,
        imports: Seq::empty(),
    }
}

/// The mathematical value of a configuration.
pub struct ConfigView {
    pub dates: Seq<TimeRangeMessageView>,
    pub multiple_behavior: Option<MultipleBehavior>,
    pub week_start_day: Option<Weekday>,
    pub imports: Seq<PathBuf>,
}

impl View for Config {
    type V = ConfigView;

    open spec fn view(&self) -> ConfigView {
        ConfigView {
            dates: self.dates@.map_values(|m: TimeRangeMessage| m@),
            multiple_behavior: self.multiple_behavior,
            week_start_day: self.week_start_day,
            imports: self.imports@,
        }
    }
}

/// `a` if it is set, else `b`.
pub open spec fn first_set<T>(a: Option<T>, b: Option<T>) -> Option<T> {
    if a is Some {
        a
    } else {
        b
    }
}

/// `a` with `b` merged in: `b`'s dates follow `a`'s, each setting that `a`
/// leaves unset is taken from `b`, and `a`'s imports stay.
pub open spec fn merged(a: ConfigView, b: ConfigView) -> ConfigView {
    ConfigView {
        dates: a.dates + b.dates,
        multiple_behavior: first_set(a.multiple_behavior, b.multiple_behavior),
        week_start_day: first_set(a.week_start_day, b.week_start_day),
        imports: a.imports,
    }
}

/// The imported configurations that loaded, merged into one in their order;
/// `None` if none loaded.
pub open spec fn fold_imports(loaded: Seq<Result<Config, ConfigError>>) -> Option<ConfigView>
    decreases loaded.len(),
{
    if loaded.len() == 0 {
        None
    } else {
        let acc = fold_imports(loaded.drop_last());
        match loaded.last() {
            Ok(c) => Some(
                match acc {
                    Some(a) => merged(a, c@),
                    None => c@,
                },
            ),
            Err(_) => acc,
        }
    }
}

/// `this` with its loaded imports merged in.
pub open spec fn with_imports(this: ConfigView, loaded: Seq<Result<Config, ConfigError>>) -> ConfigView {
    match fold_imports(loaded) {
        Some(i) => merged(this, i),
        None => this,
    }
}

/// `this` with each loaded configuration merged in, one after the other.
pub open spec fn merged_in_turn(this: ConfigView, loaded: Seq<Result<Config, ConfigError>>) -> ConfigView
    decreases loaded.len(),
{
    if loaded.len() == 0 {
        this
    } else {
        let acc = merged_in_turn(this, loaded.drop_last());
        match loaded.last() {
            Ok(c) => merged(acc, c@),
            Err(_) => acc,
        }
    }
}

/// A configuration that contributes nothing when merged in: no dates and no settings.
pub open spec fn contributes_nothing(c: ConfigView) -> bool {
    c.dates.len() == 0 && c.multiple_behavior is None && c.week_start_day is None
}

/// Merging never replaces a setting that is already set, whatever its value,
/// and fills an unset one from the configuration merged in; the dates of both
/// are kept, the receiver's first.
pub proof fn lemma_merge_keeps_set_settings(a: ConfigView, b: ConfigView)
    ensures
        a.multiple_behavior is Some ==> merged(a, b).multiple_behavior == a.multiple_behavior,
        a.multiple_behavior is None ==> merged(a, b).multiple_behavior == b.multiple_behavior,
        a.week_start_day is Some ==> merged(a, b).week_start_day == a.week_start_day,
        a.week_start_day is None ==> merged(a, b).week_start_day == b.week_start_day,
        merged(a, b).dates.len() == a.dates.len() + b.dates.len(),
        forall|i: int| 0 <= i < a.dates.len() ==> #[trigger] merged(a, b).dates[i] == a.dates[i],
        forall|i: int| 0 <= i < b.dates.len() ==> #[trigger] merged(a, b).dates[a.dates.len() + i] == b.dates[i],
        merged(a, b).imports == a.imports,
{
}

/// Merging is associative: merging `b` then `c` into `a` is merging into `a`
/// the result of merging `c` into `b`.
pub proof fn lemma_merge_associative(a: ConfigView, b: ConfigView, c: ConfigView)
    ensures
        merged(merged(a, b), c) == merged(a, merged(b, c)),
{
    assert((a.dates + b.dates) + c.dates =~= a.dates + (b.dates + c.dates));
}

/// Merging in a configuration with no dates and no settings changes nothing.
pub proof fn lemma_merge_nothing(a: ConfigView, b: ConfigView)
    requires
        contributes_nothing(b),
    ensures
        merged(a, b) == a,
{
    assert(a.dates + b.dates =~= a.dates);
}

/// Merging a configuration into the empty one gives it back without its imports.
pub proof fn lemma_merge_into_empty(c: ConfigView)
    ensures
        merged(empty_config(), c) == (ConfigView {
            dates: c.dates,
            multiple_behavior: c.multiple_behavior,
            week_start_day: c.week_start_day,
            imports: Seq::empty(),
        }),
{
    assert(Seq::<TimeRangeMessageView>::empty() + c.dates =~= c.dates);
}

/// Merging the default configuration in changes nothing.
pub proof fn lemma_merge_default(a: ConfigView)
    ensures
        merged(a, empty_config()) == a,
{
    lemma_merge_nothing(a, empty_config());
}

/// Loading imports merges them into the importing configuration one after the
/// other, in the order they are listed, skipping those that failed.
pub proof fn lemma_imports_merge_in_turn(this: ConfigView, loaded: Seq<Result<Config, ConfigError>>)
    ensures
        with_imports(this, loaded) == merged_in_turn(this, loaded),
    decreases loaded.len(),
{
    if loaded.len() > 0 {
        let init = loaded.drop_last();
        lemma_imports_merge_in_turn(this, init);
        if let Ok(c) = loaded.last() {
            if let Some(i) = fold_imports(init) {
                lemma_merge_associative(this, i, c@);
            }
        }
    }
}

/// How a first attempt to load the configuration ended.
pub enum LoadOutcome {
    Loaded(Config),
    /// There is no configuration file.
    Missing,
    Failed(ConfigError),
}

/// What to do after a first attempt to load the configuration.
pub enum LoadAction {
    Finish(Result<Config, ConfigError>),
    /// Write the default configuration, then load again.
    WriteDefaultThenReload,
}

impl Config {
    /// A missing configuration file is replaced by the default one; any other
    /// outcome is the answer.
    pub fn after_first_load(o: LoadOutcome) -> (a: LoadAction)
        ensures
            a is WriteDefaultThenReload <==> o is Missing,
            o matches LoadOutcome::Loaded(c) ==> a == LoadAction::Finish(Ok(c)),
            o matches LoadOutcome::Failed(e) ==> a == LoadAction::Finish(Err(e)),
    {
        match o {
            LoadOutcome::Loaded(c) => LoadAction::Finish(Ok(c)),
            LoadOutcome::Missing => LoadAction::WriteDefaultThenReload,
            LoadOutcome::Failed(e) => LoadAction::Finish(Err(e)),
        }
    }

    /// Merges `other` in: its dates are appended, and each setting that is
    /// unset here is taken from it.
    pub fn merge(&mut self, other: Config)
        ensures
            final(self)@ == merged(old(self)@, other@),
    {
        let mut other = other;
        let ghost a = self.dates@;
        let ghost b = other.dates@;
        self.dates.append(&mut other.dates);
        assert(self.dates@.map_values(|m: TimeRangeMessage| m@) =~= a.map_values(
            |m: TimeRangeMessage| m@,
        ) + b.map_values(|m: TimeRangeMessage| m@));
        if self.multiple_behavior.is_none() {
            if let Some(val) = other.multiple_behavior {
                self.multiple_behavior = Some(val);
            }
        }
        if self.week_start_day.is_none() {
            if let Some(val) = other.week_start_day {
                self.week_start_day = Some(val);
            }
        }
    }

    /// Whether a file at import depth `depth` may still be read; deeper
    /// imports fail with `MaxRecursionDepth`.
    pub fn check_depth(depth: u8) -> (r: Result<(), ConfigError>)
        ensures
            r is Ok <==> depth <= MAX_IMPORT_DEPTH,
            r matches Err(e) ==> e is MaxRecursionDepth,
    {
        if depth > MAX_IMPORT_DEPTH {
            Err(ConfigError::MaxRecursionDepth)
        } else {
            Ok(())
        }
    }

    /// Merges in the results of loading this configuration's imports, in
    /// their order; the ones that failed to load are skipped.
    pub fn merge_imports(&mut self, loaded: Vec<Result<Config, ConfigError>>)
        ensures
            final(self)@ == with_imports(old(self)@, loaded@),
    {
        let ghost all = loaded@;
        let mut imported: Option<Config> = None;
        assert(all.take(0) =~= Seq::<Result<Config, ConfigError>>::empty());
        for result in it: loaded
            invariant
                all == it.seq(),
                (match imported {
                    Some(c) => Some(c@),
                    None => None::<ConfigView>,
                }) == fold_imports(all.take(it.index() as int)),
        {
            proof {
                let i = it.index() as int;
                assert(all.take(i + 1).drop_last() =~= all.take(i));
            }
            match result {
                Ok(config) => {
                    match imported {
                        Some(mut acc) => {
                            acc.merge(config);
                            imported = Some(acc);
                        },
                        None => {
                            imported = Some(config);
                        },
                    }
                },
                Err(_) => {},
            }
        }
        assert(all.take(all.len() as int) =~= all);
        if let Some(imported) = imported {
            self.merge(imported);
        }
    }
}

} // verus!
