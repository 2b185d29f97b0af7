//! Administration: what has to be confirmed, what is installed and what is removed.
use crate::config::{
    config_text, default_settings, OledConfig, FAN_CONFIG_PATH, OLED_ASSET_PATH, OLED_CONFIG_PATH,
    RTC_CONFIG_PATH,
};
use crate::schedule::{file_text, serialize_schedule_file, Schedule, ScheduleView};
use crate::text;
use vstd::prelude::*;
use vstd::string::StringExecFns;

verus! {

/// What is said when something was not confirmed.
pub open spec fn refusal(action: Seq<char>) -> Seq<char> {
    "refusing to "@ + action + "; repeat with --yes after checking hardware and recovery access"@
}

/// Refuses what was not confirmed.
pub fn confirm(flag: bool, action: &str) -> (r: Result<(), String>)
    ensures
        flag ==> r is Ok,
        !flag ==> r is Err && r->Err_0@ == refusal(action@),
{
    if flag {
        return Ok(());
    }
    let mut out = String::new();
    out.append("refusing to ");
    out.append(action);
    out.append("; repeat with --yes after checking hardware and recovery access");
    assert(Seq::<char>::empty() + "refusing to "@ =~= "refusing to "@);
    Err(out)
}

/// A path without the slashes at its beginning.
pub open spec fn relative(s: Seq<char>) -> Seq<char>
    decreases s.len(),
{
    if s.len() > 0 && s[0] == '/' {
        relative(s.drop_first())
    } else {
        s
    }
}

/// A path without the slashes at its beginning, to be put below a root.
pub fn relative_path(absolute: &str) -> (r: String)
    ensures
        r@ == relative(absolute@),
{
    let chars = text::to_chars(absolute);
    let mut i: usize = 0;
    assert(chars@.skip(0) =~= chars@);
    while i < chars.len() && chars[i] == '/'
        invariant
            i <= chars@.len(),
            relative(chars@) == relative(chars@.skip(i as int)),
        decreases chars@.len() - i,
    {
        assert(chars@.skip(i as int).drop_first() =~= chars@.skip(i + 1));
        i += 1;
    }
    let rest = vstd::slice::slice_subrange(chars.as_slice(), i, chars.len());
    assert(rest@ =~= chars@.skip(i as int));
    text::to_text(rest)
}

/// What is put below a root stays below it: its path does not begin with a slash, which would
/// make it an absolute one again.
pub proof fn law_relative_paths(s: Seq<char>)
    ensures
        relative(s).len() > 0 ==> relative(s)[0] != '/',
        relative(relative(s)) == relative(s),
    decreases s.len(),
{
    if s.len() > 0 && s[0] == '/' {
        law_relative_paths(s.drop_first());
    }
}

/// One step of an installation. Paths are those below the root of the installation.
#[derive(Debug, Clone, PartialEq, Eq)]
pub enum InstallStep {
    /// Copy a program from beside the installer and make it executable.
    Program { name: &'static str, destination: &'static str },
    /// Write the unit of the service.
    Unit { destination: &'static str },
    /// Copy an installed program and make the copy executable.
    Hook { source: &'static str, destination: &'static str },
    /// Write a configuration.
    Configuration { path: &'static str, contents: String },
    /// Write the pictures and fonts of the OLED.
    Assets { directory: &'static str },
    /// Make a symbolic link.
    Link { target: &'static str, path: &'static str },
    /// Have the units of systemd read again.
    ReloadUnits,
    /// Start the service, now and with the host.
    EnableService,
}

/// What an [`InstallStep`] is.
pub enum Step {
    Program { name: Seq<char>, destination: Seq<char> },
    Unit { destination: Seq<char> },
    Hook { source: Seq<char>, destination: Seq<char> },
    Configuration { path: Seq<char>, contents: Seq<char> },
    Assets { directory: Seq<char> },
    Link { target: Seq<char>, path: Seq<char> },
    ReloadUnits,
    EnableService,
}

impl View for InstallStep {
    type V = Step;

    open spec fn view(&self) -> Step {
        match *self {
            InstallStep::Program { name, destination } => Step::Program {
                name: name@,
                destination: destination@,
            },
            InstallStep::Unit { destination } => Step::Unit { destination: destination@ },
            InstallStep::Hook { source, destination } => Step::Hook {
                source: source@,
                destination: destination@,
            },
            InstallStep::Configuration { path, contents } => Step::Configuration {
                path: path@,
                contents: contents@,
            },
            InstallStep::Assets { directory } => Step::Assets { directory: directory@ },
            InstallStep::Link { target, path } => Step::Link { target: target@, path: path@ },
            InstallStep::ReloadUnits => Step::ReloadUnits,
            InstallStep::EnableService => Step::EnableService,
        }
    }
}

/// What steps are, in their order.
pub open spec fn steps_of(steps: Seq<InstallStep>) -> Seq<Step> {
    Seq::new(steps.len(), |i: int| steps[i]@)
}

/// What is below the root already.
#[derive(Debug, Clone, Copy, PartialEq, Eq, Structural)]
pub struct Installed {
    pub fan_config: bool,
    pub oled_config: bool,
    pub rtc_config: bool,
    pub link: bool,
}

/// A step, unless what it makes is there.
pub open spec fn unless(present: bool, step: Step) -> Seq<Step> {
    if present {
        seq![]
    } else {
        seq![step]
    }
}

/// The programs, the unit and the hook.
pub open spec fn program_steps() -> Seq<Step> {
    seq![
        Step::Program { name: "argon40d"@, destination: "/usr/local/sbin/argon40d"@ },
        Step::Program { name: "argon40ctl"@, destination: "/usr/local/bin/argon40ctl"@ },
        Step::Program {
            name: "argon40-shutdown"@,
            destination: "/usr/local/libexec/argon40-shutdown"@,
        },
        Step::Unit { destination: "/etc/systemd/system/argon40d.service"@ },
        Step::Hook {
            source: "/usr/local/libexec/argon40-shutdown"@,
            destination: "/usr/lib/systemd/system-shutdown/argon40-shutdown"@,
        },
    ]
}

/// The fan curve that is installed.
pub const FAN_CONFIG_TEXT: &'static str = "# temperature C = fan percent\n55=10\n60=55\n65=100\n";

/// The configurations that are missing.
pub open spec fn configuration_steps(installed: Installed) -> Seq<Step> {
    unless(
        installed.fan_config,
        Step::Configuration { path: FAN_CONFIG_PATH@, contents: FAN_CONFIG_TEXT@ },
    ) + unless(
        installed.oled_config,
        Step::Configuration { path: OLED_CONFIG_PATH@, contents: config_text(default_settings()) },
    ) + unless(
        installed.rtc_config,
        Step::Configuration {
            path: RTC_CONFIG_PATH@,
            contents: file_text(Seq::<ScheduleView>::empty()),
        },
    )
}

/// What is asked of systemd: nothing for an installation below another root.
pub open spec fn service_steps(system_root: bool, enable: bool) -> Seq<Step> {
    if !system_root {
        seq![]
    } else if enable {
        seq![Step::ReloadUnits, Step::EnableService]
    } else {
        seq![Step::ReloadUnits]
    }
}

/// The steps of an installation.
pub open spec fn install_plan(installed: Installed, system_root: bool, enable: bool) -> Seq<Step> {
    program_steps() + configuration_steps(installed) + seq![
        Step::Assets { directory: OLED_ASSET_PATH@ },
    ] + unless(
        installed.link,
        Step::Link { target: "argon40ctl"@, path: "/usr/local/bin/argonone-config"@ },
    ) + service_steps(system_root, enable)
}

fn add_step(steps: &mut Vec<InstallStep>, step: InstallStep)
    ensures
        steps_of(final(steps)@) == steps_of(old(steps)@).push(step@),
{
    let ghost before = steps@;
    steps.push(step);
    assert(steps_of(steps@) =~= steps_of(before).push(step@));
}

/// The steps of an installation. `system_root` tells whether it is that of the running system,
/// and `enable` whether the service is to be started.
pub fn plan_installation(installed: Installed, system_root: bool, enable: bool) -> (r: Vec<
    InstallStep,
>)
    ensures
        steps_of(r@) == install_plan(installed, system_root, enable),
{
    let mut steps: Vec<InstallStep> = Vec::new();
    add_step(
        &mut steps,
        InstallStep::Program { name: "argon40d", destination: "/usr/local/sbin/argon40d" },
    );
    add_step(
        &mut steps,
        InstallStep::Program { name: "argon40ctl", destination: "/usr/local/bin/argon40ctl" },
    );
    add_step(
        &mut steps,
        InstallStep::Program {
            name: "argon40-shutdown",
            destination: "/usr/local/libexec/argon40-shutdown",
        },
    );
    add_step(
        &mut steps,
        InstallStep::Unit { destination: "/etc/systemd/system/argon40d.service" },
    );
    add_step(
        &mut steps,
        InstallStep::Hook {
            source: "/usr/local/libexec/argon40-shutdown",
            destination: "/usr/lib/systemd/system-shutdown/argon40-shutdown",
        },
    );
    assert(steps_of(steps@) =~= program_steps());
    if !installed.fan_config {
        let mut contents = String::new();
        contents.append(FAN_CONFIG_TEXT);
        assert(contents@ =~= FAN_CONFIG_TEXT@);
        add_step(&mut steps, InstallStep::Configuration { path: FAN_CONFIG_PATH, contents });
    }
    if !installed.oled_config {
        let contents = OledConfig::default().serialize();
        add_step(&mut steps, InstallStep::Configuration { path: OLED_CONFIG_PATH, contents });
    }
    if !installed.rtc_config {
        let none: Vec<Schedule> = Vec::new();
        let contents = serialize_schedule_file(none.as_slice());
        assert(crate::schedule::views(none@) =~= Seq::<ScheduleView>::empty());
        add_step(&mut steps, InstallStep::Configuration { path: RTC_CONFIG_PATH, contents });
    }
    assert(steps_of(steps@) =~= program_steps() + configuration_steps(installed));
    add_step(&mut steps, InstallStep::Assets { directory: OLED_ASSET_PATH });
    if !installed.link {
        add_step(
            &mut steps,
            InstallStep::Link { target: "argon40ctl", path: "/usr/local/bin/argonone-config" },
        );
    }
    if system_root {
        add_step(&mut steps, InstallStep::ReloadUnits);
        if enable {
            add_step(&mut steps, InstallStep::EnableService);
        }
    }
    assert(steps_of(steps@) =~= install_plan(installed, system_root, enable));
    steps
}

/// What is removed again.
pub open spec fn removed() -> Seq<Seq<char>> {
    seq![
        "/etc/systemd/system/argon40d.service"@,
        "/usr/lib/systemd/system-shutdown/argon40-shutdown"@,
        "/usr/local/sbin/argon40d"@,
        "/usr/local/bin/argon40ctl"@,
        "/usr/local/bin/argonone-config"@,
        "/usr/local/libexec/argon40-shutdown"@,
    ]
}

/// What is removed again, in this order.
pub fn removed_paths() -> (r: [&'static str; 6])
    ensures
        r@.map_values(|path: &'static str| path@) == removed(),
{
    let paths: [&'static str; 6] = [
        "/etc/systemd/system/argon40d.service",
        "/usr/lib/systemd/system-shutdown/argon40-shutdown",
        "/usr/local/sbin/argon40d",
        "/usr/local/bin/argon40ctl",
        "/usr/local/bin/argonone-config",
        "/usr/local/libexec/argon40-shutdown",
    ];
    assert(paths@.map_values(|path: &'static str| path@) =~= removed());
    paths
}

/// Whether a step writes the configuration at `path`.
pub open spec fn writes_configuration(step: Step, path: Seq<char>) -> bool {
    step matches Step::Configuration { path: written, .. } && written == path
}

proof fn lemma_configuration_paths_differ()
    ensures
        FAN_CONFIG_PATH@ != OLED_CONFIG_PATH@,
        FAN_CONFIG_PATH@ != RTC_CONFIG_PATH@,
        OLED_CONFIG_PATH@ != RTC_CONFIG_PATH@,
{
    reveal_strlit("/etc/argononed.conf");
    reveal_strlit("/etc/argoneonoled.conf");
    reveal_strlit("/etc/argoneonrtc.conf");
    assert(FAN_CONFIG_PATH@.len() == 19);
    assert(OLED_CONFIG_PATH@.len() == 22);
    assert(RTC_CONFIG_PATH@.len() == 21);
}

/// An installation never writes over a configuration that is there.
pub proof fn law_configuration_is_preserved(
    installed: Installed,
    system_root: bool,
    enable: bool,
    i: int,
)
    requires
        0 <= i < install_plan(installed, system_root, enable).len(),
    ensures
        ({
            let step = install_plan(installed, system_root, enable)[i];
            &&& installed.fan_config ==> !writes_configuration(step, FAN_CONFIG_PATH@)
            &&& installed.oled_config ==> !writes_configuration(step, OLED_CONFIG_PATH@)
            &&& installed.rtc_config ==> !writes_configuration(step, RTC_CONFIG_PATH@)
        }),
{
    lemma_configuration_paths_differ();
}

/// An installation below another root asks nothing of systemd, and one that is not to start the
/// service does not start it.
pub proof fn law_staging_leaves_services_alone(
    installed: Installed,
    system_root: bool,
    enable: bool,
    i: int,
)
    requires
        0 <= i < install_plan(installed, system_root, enable).len(),
    ensures
        ({
            let step = install_plan(installed, system_root, enable)[i];
            &&& !system_root ==> !(step is ReloadUnits) && !(step is EnableService)
            &&& !enable ==> !(step is EnableService)
        }),
{
}

/// The programs, the unit, the hook and the link of an installation are removed again; the
/// configurations are not.
pub proof fn law_removal_keeps_configuration()
    ensures
        forall|i: int|
            0 <= i < program_steps().len() ==> (match #[trigger] program_steps()[i] {
                Step::Program { destination, .. } => removed().contains(destination),
                Step::Unit { destination } => removed().contains(destination),
                Step::Hook { destination, .. } => removed().contains(destination),
                _ => false,
            }),
        removed().contains("/usr/local/bin/argonone-config"@),
        !removed().contains(FAN_CONFIG_PATH@),
        !removed().contains(OLED_CONFIG_PATH@),
        !removed().contains(RTC_CONFIG_PATH@),
{
    reveal_strlit("/etc/argononed.conf");
    reveal_strlit("/etc/argoneonoled.conf");
    reveal_strlit("/etc/argoneonrtc.conf");
    reveal_strlit("/etc/systemd/system/argon40d.service");
    reveal_strlit("/usr/lib/systemd/system-shutdown/argon40-shutdown");
    reveal_strlit("/usr/local/sbin/argon40d");
    reveal_strlit("/usr/local/bin/argon40ctl");
    reveal_strlit("/usr/local/bin/argonone-config");
    reveal_strlit("/usr/local/libexec/argon40-shutdown");
    assert(removed()[0].len() == 36);
    assert(removed()[1].len() == 49);
    assert(removed()[2].len() == 24);
    assert(removed()[3].len() == 25);
    assert(removed()[4].len() == 30);
    assert(removed()[5].len() == 35);
    assert(FAN_CONFIG_PATH@.len() == 19);
    assert(OLED_CONFIG_PATH@.len() == 22);
    assert(RTC_CONFIG_PATH@.len() == 21);
    assert(program_steps()[0]->Program_destination == removed()[2]);
    assert(program_steps()[1]->Program_destination == removed()[3]);
    assert(program_steps()[2]->Program_destination == removed()[5]);
    assert(program_steps()[3]->Unit_destination == removed()[0]);
    assert(program_steps()[4]->Hook_destination == removed()[1]);
    assert(removed()[4] == "/usr/local/bin/argonone-config"@);
}

/// A path below a root is the path without the slashes at its front, and nothing else is lost.
pub proof fn law_only_slashes_are_taken(s: Seq<char>)
    ensures
        relative(s).len() <= s.len(),
        s.skip(s.len() - relative(s).len()) == relative(s),
        forall|i: int| 0 <= i < s.len() - relative(s).len() ==> #[trigger] s[i] == '/',
    decreases s.len(),
{
    if s.len() > 0 && s[0] == '/' {
        let rest = s.drop_first();
        law_only_slashes_are_taken(rest);
        let n = rest.len() - relative(rest).len();
        assert(s.skip(n + 1) =~= rest.skip(n));
        assert forall|i: int| 0 <= i < s.len() - relative(s).len() implies #[trigger] s[i]
            == '/' by {
            if i > 0 {
                assert(rest[i - 1] == s[i]);
            }
        }
    } else {
        assert(s.skip(0) =~= s);
    }
}

/// An installation puts every program, the unit, the hook and the assets in their places, and
/// writes each configuration that is missing and the link if there is none.
pub proof fn law_installation_is_complete(installed: Installed, system_root: bool, enable: bool)
    ensures
        ({
            let plan = install_plan(installed, system_root, enable);
            &&& plan.contains(
                Step::Program { name: "argon40d"@, destination: "/usr/local/sbin/argon40d"@ },
            )
            &&& plan.contains(
                Step::Program { name: "argon40ctl"@, destination: "/usr/local/bin/argon40ctl"@ },
            )
            &&& plan.contains(
                Step::Program {
                    name: "argon40-shutdown"@,
                    destination: "/usr/local/libexec/argon40-shutdown"@,
                },
            )
            &&& plan.contains(Step::Unit { destination: "/etc/systemd/system/argon40d.service"@ })
            &&& plan.contains(
                Step::Hook {
                    source: "/usr/local/libexec/argon40-shutdown"@,
                    destination: "/usr/lib/systemd/system-shutdown/argon40-shutdown"@,
                },
            )
            &&& plan.contains(Step::Assets { directory: "/etc/argon/oled"@ })
            &&& !installed.fan_config ==> plan.contains(
                Step::Configuration {
                    path: "/etc/argononed.conf"@,
                    contents: "# temperature C = fan percent\n55=10\n60=55\n65=100\n"@,
                },
            )
            &&& !installed.oled_config ==> exists|i: int|
                0 <= i < plan.len() && writes_configuration(
                    #[trigger] plan[i],
                    "/etc/argoneonoled.conf"@,
                )
            &&& !installed.rtc_config ==> exists|i: int|
                0 <= i < plan.len() && writes_configuration(
                    #[trigger] plan[i],
                    "/etc/argoneonrtc.conf"@,
                )
            &&& !installed.link ==> plan.contains(
                Step::Link { target: "argon40ctl"@, path: "/usr/local/bin/argonone-config"@ },
            )
        }),
{
    let plan = install_plan(installed, system_root, enable);
    let programs = program_steps();
    let first = unless(
        installed.fan_config,
        Step::Configuration { path: FAN_CONFIG_PATH@, contents: FAN_CONFIG_TEXT@ },
    );
    let second = unless(
        installed.oled_config,
        Step::Configuration { path: OLED_CONFIG_PATH@, contents: config_text(default_settings()) },
    );
    let third = unless(
        installed.rtc_config,
        Step::Configuration {
            path: RTC_CONFIG_PATH@,
            contents: file_text(Seq::<ScheduleView>::empty()),
        },
    );
    let a = programs.len() as int;
    let b = a + first.len();
    let c = b + second.len();
    let d = c + third.len();
    assert(plan[0] == programs[0]);
    assert(plan[1] == programs[1]);
    assert(plan[2] == programs[2]);
    assert(plan[3] == programs[3]);
    assert(plan[4] == programs[4]);
    assert(plan[d] == Step::Assets { directory: OLED_ASSET_PATH@ });
    if !installed.fan_config {
        assert(plan[a] == first[0]);
    }
    if !installed.oled_config {
        assert(plan[b] == second[0]);
    }
    if !installed.rtc_config {
        assert(plan[c] == third[0]);
    }
    if !installed.link {
        assert(plan[d + 1] == Step::Link {
            target: "argon40ctl"@,
            path: "/usr/local/bin/argonone-config"@,
        });
    }
}

/// On the running system the units are read anew behind everything else, and only behind that the
/// service is started, if it is to be.
pub proof fn law_service_comes_last(installed: Installed, enable: bool)
    ensures
        ({
            let plan = install_plan(installed, true, enable);
            &&& enable ==> plan.last() == Step::EnableService && plan[plan.len() - 2]
                == Step::ReloadUnits
            &&& !enable ==> plan.last() == Step::ReloadUnits
        }),
{
}

/// A refusal says what is refused, and how it can be done all the same.
pub proof fn law_refusals(action: Seq<char>)
    ensures
        text::begins(refusal(action), "refusing to "@ + action),
        text::holds(refusal(action), "repeat with --yes"@),
{
    reveal_strlit("refusing to ");
    reveal_strlit("; repeat with --yes after checking hardware and recovery access");
    reveal_strlit("repeat with --yes");
    reveal_strlit(" after checking hardware and recovery access");
    let rest = "; repeat with --yes after checking hardware and recovery access"@;
    let tail = " after checking hardware and recovery access"@;
    let start = "refusing to "@ + action;
    assert(rest =~= seq![';', ' '] + "repeat with --yes"@ + tail);
    assert(refusal(action) =~= start + seq![';', ' '] + "repeat with --yes"@ + tail);
    text::lemma_holds_between(start + seq![';', ' '], "repeat with --yes"@, tail);
    text::lemma_holds_between(seq![], start, rest);
}

} // verus!
