//! The settings of a logging setup, gathered field by field and checked once.

use vstd::prelude::*;
use vstd::string::*;

verus! {

/// How much a logger lets through, from nothing to everything.
#[derive(Clone, Copy, Debug, PartialEq, Eq, Hash, Structural)]
pub enum LevelFilter {
    Off,
    Error,
    Warn,
    Info,
    Debug,
    Trace,
}

/// Why the settings cannot be used.
#[derive(Clone, Copy, Debug, PartialEq, Eq, Structural)]
pub enum BuildError {
    /// The application name, the qualifier or the organization is empty.
    MissingRequiredFields,
}

impl BuildError {
    /// The error in words.
    pub fn message(&self) -> (text: &'static str)
        ensures
            text@ == "Missing required fields"@,
    {
        "Missing required fields"
    }
}

/// The levels that a list of settings gives to modules: a later setting for
/// a module replaces an earlier one.
pub open spec fn level_map(settings: Seq<(String, LevelFilter)>) -> Map<Seq<char>, LevelFilter>
    decreases settings.len(),
{
    if settings.len() == 0 {
        Map::empty()
    } else {
        level_map(settings.drop_last()).insert(settings.last().0@, settings.last().1)
    }
}

/// No module is named twice in the list.
pub open spec fn distinct_modules(settings: Seq<(String, LevelFilter)>) -> bool {
    forall|i: int, j: int|
        0 <= i < j < settings.len() ==> (#[trigger] settings[i]).0@ != (#[trigger] settings[j]).0@
}

/// Adding a setting for a module that has none adds it to the levels.
proof fn lemma_level_added(settings: Seq<(String, LevelFilter)>, added: (String, LevelFilter))
    ensures
        level_map(settings.push(added)) == level_map(settings).insert(added.0@, added.1),
{
    assert(settings.push(added).drop_last() =~= settings);
}

/// Writing a new setting over the one that a module has changes the level
/// of that module and of no other.
proof fn lemma_level_replaced(
    settings: Seq<(String, LevelFilter)>,
    k: int,
    replacement: (String, LevelFilter),
)
    requires
        distinct_modules(settings),
        0 <= k < settings.len(),
        settings[k].0@ == replacement.0@,
    ensures
        distinct_modules(settings.update(k, replacement)),
        level_map(settings.update(k, replacement)) == level_map(settings).insert(
            replacement.0@,
            replacement.1,
        ),
    decreases settings.len(),
{
    let updated = settings.update(k, replacement);
    assert forall|i: int, j: int| 0 <= i < j < updated.len() implies (#[trigger] updated[i]).0@
        != (#[trigger] updated[j]).0@ by {
        assert(settings[i].0@ != settings[j].0@);
    }
    let last = settings.len() - 1;
    if k == last {
        assert(updated.drop_last() =~= settings.drop_last());
        assert(level_map(updated) =~= level_map(settings).insert(
            replacement.0@,
            replacement.1,
        ));
    } else {
        assert(settings[k].0@ != settings[last].0@);
        assert(updated.drop_last() =~= settings.drop_last().update(k, replacement));
        assert forall|i: int, j: int| 0 <= i < j < settings.drop_last().len() implies (
        #[trigger] settings.drop_last()[i]).0@ != (#[trigger] settings.drop_last()[j]).0@ by {
            assert(settings[i].0@ != settings[j].0@);
        }
        lemma_level_replaced(settings.drop_last(), k, replacement);
        assert(level_map(updated) =~= level_map(settings).insert(
            replacement.0@,
            replacement.1,
        ));
    }
}

/// What a set of settings says.
pub struct Settings {
    pub app_name: Seq<char>,
    pub global_level: LevelFilter,
    pub qualifier: Seq<char>,
    pub organization: Seq<char>,
    pub levels: Map<Seq<char>, LevelFilter>,
}

impl Settings {
    /// The three names that identify the application are all there.
    pub open spec fn complete(&self) -> bool {
        self.app_name.len() > 0 && self.qualifier.len() > 0 && self.organization.len() > 0
    }
}

/// Settings under construction.
pub struct LoggingBuilder {
    app_name: String,
    global_level: LevelFilter,
    qualifier: String,
    organization: String,
    level_for: Vec<(String, LevelFilter)>,
}

/// Settings that passed the check: the three names are not empty.
#[derive(Debug)]
pub struct LoggingConfig {
    pub app_name: String,
    pub global_level: LevelFilter,
    pub qualifier: String,
    pub organization: String,
    /// The levels of single modules, each module once, in the order in
    /// which the modules were first named.
    pub level_for: Vec<(String, LevelFilter)>,
}

impl View for LoggingBuilder {
    type V = Settings;

    closed spec fn view(&self) -> Settings {
        Settings {
            app_name: self.app_name@,
            global_level: self.global_level,
            qualifier: self.qualifier@,
            organization: self.organization@,
            levels: level_map(self.level_for@),
        }
    }
}

impl View for LoggingConfig {
    type V = Settings;

    open spec fn view(&self) -> Settings {
        Settings {
            app_name: self.app_name@,
            global_level: self.global_level,
            qualifier: self.qualifier@,
            organization: self.organization@,
            levels: level_map(self.level_for@),
        }
    }
}

impl LoggingConfig {
    /// The level set for `module`, if one was set.
    pub fn level_of(&self, module: &str) -> (level: Option<LevelFilter>)
        ensures
            level == (if self@.levels.contains_key(module@) {
                Some(self@.levels[module@])
            } else {
                None
            }),
    {
        let wanted: String = module.to_owned();
        let mut k: usize = self.level_for.len();
        assert(self.level_for@.take(k as int) =~= self.level_for@);
        while k > 0
            invariant
                k <= self.level_for@.len(),
                wanted@ == module@,
                level_map(self.level_for@).contains_key(module@) == level_map(
                    self.level_for@.take(k as int),
                ).contains_key(module@),
                level_map(self.level_for@).contains_key(module@) ==> level_map(
                    self.level_for@,
                )[module@] == level_map(self.level_for@.take(k as int))[module@],
            decreases k,
        {
            proof {
                assert(self.level_for@.take(k as int).drop_last() =~= self.level_for@.take(
                    k - 1,
                ));
                assert(self.level_for@.take(k as int).last() == self.level_for@[k - 1]);
            }
            k -= 1;
            if self.level_for[k].0 == wanted {
                return Some(self.level_for[k].1);
            }
        }
        None
    }
}

impl LoggingBuilder {
    #[verifier::type_invariant]
    spec fn each_module_once(self) -> bool {
        distinct_modules(self.level_for@)
    }

    /// Settings with no names, the global level `Debug` and no level for
    /// any module.
    pub fn new() -> (builder: LoggingBuilder)
        ensures
            builder@ == (Settings {
                app_name: Seq::empty(),
                global_level: LevelFilter::Debug,
                qualifier: Seq::empty(),
                organization: Seq::empty(),
                levels: Map::empty(),
            }),
    {
        LoggingBuilder {
            app_name: String::new(),
            global_level: LevelFilter::Debug,
            qualifier: String::new(),
            organization: String::new(),
            level_for: Vec::new(),
        }
    }

    /// Sets the application's name.
    pub fn app_name(self, app_name: &str) -> (builder: LoggingBuilder)
        ensures
            builder@ == (Settings { app_name: app_name@, ..self@ }),
    {
        let mut builder = self;
        proof {
            use_type_invariant(&builder);
        }
        builder.app_name = app_name.to_owned();
        builder
    }

    /// Sets the level that holds where no module has one of its own.
    pub fn global_level(self, level: LevelFilter) -> (builder: LoggingBuilder)
        ensures
            builder@ == (Settings { global_level: level, ..self@ }),
    {
        let mut builder = self;
        proof {
            use_type_invariant(&builder);
        }
        builder.global_level = level;
        builder
    }

    /// Sets the qualifier, the first part of the application's identity.
    pub fn qualifier(self, qualifier: &str) -> (builder: LoggingBuilder)
        ensures
            builder@ == (Settings { qualifier: qualifier@, ..self@ }),
    {
        let mut builder = self;
        proof {
            use_type_invariant(&builder);
        }
        builder.qualifier = qualifier.to_owned();
        builder
    }

    /// Sets the organization, the second part of the application's identity.
    pub fn organization(self, organization: &str) -> (builder: LoggingBuilder)
        ensures
            builder@ == (Settings { organization: organization@, ..self@ }),
    {
        let mut builder = self;
        proof {
            use_type_invariant(&builder);
        }
        builder.organization = organization.to_owned();
        builder
    }

    /// Sets the level of one module, in place of any set for it before.
    #[verifier::loop_isolation(false)]
    pub fn level_for(self, module: &str, level: LevelFilter) -> (builder: LoggingBuilder)
        ensures
            builder@ == (Settings { levels: self@.levels.insert(module@, level), ..self@ }),
    {
        proof {
            use_type_invariant(&self);
        }
        let ghost before = self.level_for@;
        let LoggingBuilder { app_name, global_level, qualifier, organization, level_for } = self;
        let mut settings = level_for;
        let name: String = module.to_owned();
        let mut k: usize = 0;
        while k < settings.len()
            invariant
                settings@ == before,
                k <= settings@.len(),
                name@ == module@,
                forall|j: int| 0 <= j < k ==> (#[trigger] settings@[j]).0@ != module@,
            decreases settings@.len() - k,
        {
            if settings[k].0 == name {
                proof {
                    lemma_level_replaced(before, k as int, (name, level));
                }
                settings.set(k, (name, level));
                return LoggingBuilder {
                    app_name,
                    global_level,
                    qualifier,
                    organization,
                    level_for: settings,
                };
            }
            k += 1;
        }
        proof {
            lemma_level_added(before, (name, level));
        }
        settings.push((name, level));
        LoggingBuilder { app_name, global_level, qualifier, organization, level_for: settings }
    }

    /// Checks the settings and hands them over: they pass when the
    /// application name, the qualifier and the organization are not empty.
    pub fn finish(self) -> (checked: Result<LoggingConfig, BuildError>)
        ensures
            match checked {
                Ok(config) => self@.complete() && config@ == self@ && distinct_modules(
                    config.level_for@,
                ),
                Err(e) => !self@.complete() && e == BuildError::MissingRequiredFields,
            },
    {
        proof {
            use_type_invariant(&self);
        }
        if self.app_name.as_str().is_empty() || self.qualifier.as_str().is_empty()
            || self.organization.as_str().is_empty() {
            return Err(BuildError::MissingRequiredFields);
        }
        Ok(
            LoggingConfig {
                app_name: self.app_name,
                global_level: self.global_level,
                qualifier: self.qualifier,
                organization: self.organization,
                level_for: self.level_for,
            },
        )
    }
}

} // verus!
