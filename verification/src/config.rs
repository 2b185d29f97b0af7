//! The configuration of the OLED pages, and where configuration lives.
//!
//! The configuration is data: lines of the form `key=value`, read strictly and never executed.
use crate::text;
use vstd::prelude::*;
use vstd::string::StringExecFns;

verus! {

pub const FAN_CONFIG_PATH: &'static str = "/etc/argononed.conf";

pub const OLED_CONFIG_PATH: &'static str = "/etc/argoneonoled.conf";

pub const RTC_CONFIG_PATH: &'static str = "/etc/argoneonrtc.conf";

pub const OLED_ASSET_PATH: &'static str = "/etc/argon/oled";

/// What the OLED can show.
#[derive(Debug, Clone, Copy, PartialEq, Eq, Structural)]
pub enum OledPage {
    Clock,
    Cpu,
    Storage,
    Raid,
    Ram,
    Temperature,
    Ip,
}

/// The settings of the OLED.
#[derive(Debug, Clone, PartialEq, Eq)]
pub struct OledConfig {
    pub enabled: bool,
    /// Zero means that pages are switched by hand.
    pub switch_seconds: u64,
    /// `None` means that the display is never blanked.
    pub screensaver_seconds: Option<u64>,
    pub pages: Vec<OledPage>,
}

/// What is wrong with a line.
#[derive(Debug, Clone, PartialEq, Eq)]
pub enum OledConfigFault {
    /// The line has no `=`.
    MissingEquals,
    /// `enabled` is neither `Y` nor `N`.
    Enabled,
    /// `switchduration` is no number.
    SwitchDuration,
    /// `screensaver` is no number.
    Screensaver,
    /// `screenlist` names a page that does not exist.
    UnknownPage { name: String },
    /// The key does not exist.
    UnknownKey { key: String },
}

/// The first faulty line, counted from one.
#[derive(Debug, Clone, PartialEq, Eq)]
pub struct OledConfigError {
    pub line: usize,
    pub fault: OledConfigFault,
}

/// What an [`OledConfig`] holds.
pub struct OledSettings {
    pub enabled: bool,
    pub switch_seconds: u64,
    pub screensaver_seconds: Option<u64>,
    pub pages: Seq<OledPage>,
}

/// What an [`OledConfigFault`] says.
pub enum OledProblem {
    MissingEquals,
    Enabled,
    SwitchDuration,
    Screensaver,
    UnknownPage { name: Seq<char> },
    UnknownKey { key: Seq<char> },
}

impl View for OledConfig {
    type V = OledSettings;

    open spec fn view(&self) -> OledSettings {
        OledSettings {
            enabled: self.enabled,
            switch_seconds: self.switch_seconds,
            screensaver_seconds: self.screensaver_seconds,
            pages: self.pages@,
        }
    }
}

impl View for OledConfigFault {
    type V = OledProblem;

    open spec fn view(&self) -> OledProblem {
        match *self {
            OledConfigFault::MissingEquals => OledProblem::MissingEquals,
            OledConfigFault::Enabled => OledProblem::Enabled,
            OledConfigFault::SwitchDuration => OledProblem::SwitchDuration,
            OledConfigFault::Screensaver => OledProblem::Screensaver,
            OledConfigFault::UnknownPage { name } => OledProblem::UnknownPage { name: name@ },
            OledConfigFault::UnknownKey { key } => OledProblem::UnknownKey { key: key@ },
        }
    }
}

/// The name of a page.
pub open spec fn page_name(page: OledPage) -> Seq<char> {
    match page {
        OledPage::Clock => "clock"@,
        OledPage::Cpu => "cpu"@,
        OledPage::Storage => "storage"@,
        OledPage::Raid => "raid"@,
        OledPage::Ram => "ram"@,
        OledPage::Temperature => "temp"@,
        OledPage::Ip => "ip"@,
    }
}

/// The page with the given name.
pub open spec fn page_named(name: Seq<char>) -> Option<OledPage> {
    if name == "clock"@ {
        Some(OledPage::Clock)
    } else if name == "cpu"@ {
        Some(OledPage::Cpu)
    } else if name == "storage"@ {
        Some(OledPage::Storage)
    } else if name == "raid"@ {
        Some(OledPage::Raid)
    } else if name == "ram"@ {
        Some(OledPage::Ram)
    } else if name == "temp"@ {
        Some(OledPage::Temperature)
    } else if name == "ip"@ {
        Some(OledPage::Ip)
    } else {
        None
    }
}

/// The pages with the given names, or the first name that is none.
pub open spec fn pages_named(names: Seq<Seq<char>>) -> Result<Seq<OledPage>, Seq<char>>
    decreases names.len(),
{
    if names.len() == 0 {
        Ok(seq![])
    } else {
        match pages_named(names.drop_last()) {
            Err(name) => Err(name),
            Ok(pages) => match page_named(names.last()) {
                Some(page) => Ok(pages.push(page)),
                None => Err(names.last()),
            },
        }
    }
}

/// The settings when nothing is configured.
pub open spec fn default_settings() -> OledSettings {
    OledSettings {
        enabled: true,
        switch_seconds: 0,
        screensaver_seconds: Some(120),
        pages: seq![OledPage::Clock, OledPage::Ip],
    }
}

/// A screensaver time; zero means none.
pub open spec fn screensaver(seconds: u64) -> Option<u64> {
    if seconds != 0 {
        Some(seconds)
    } else {
        None
    }
}

/// The settings after `key` was given `value`.
pub open spec fn with_setting(
    settings: OledSettings,
    key: Seq<char>,
    value: Seq<char>,
) -> Result<OledSettings, OledProblem> {
    let seconds = text::number(value, u64::MAX as nat);
    if key == "enabled"@ {
        if value == "Y"@ || value == "y"@ {
            Ok(OledSettings { enabled: true, ..settings })
        } else if value == "N"@ || value == "n"@ {
            Ok(OledSettings { enabled: false, ..settings })
        } else {
            Err(OledProblem::Enabled)
        }
    } else if key == "switchduration"@ {
        match seconds {
            Some(seconds) => Ok(OledSettings { switch_seconds: seconds as u64, ..settings }),
            None => Err(OledProblem::SwitchDuration),
        }
    } else if key == "screensaver"@ {
        match seconds {
            Some(seconds) => Ok(
                OledSettings { screensaver_seconds: screensaver(seconds as u64), ..settings },
            ),
            None => Err(OledProblem::Screensaver),
        }
    } else if key == "screenlist"@ {
        match pages_named(text::words_of(value)) {
            Ok(pages) => Ok(OledSettings { pages, ..settings }),
            Err(name) => Err(OledProblem::UnknownPage { name }),
        }
    } else {
        Err(OledProblem::UnknownKey { key })
    }
}

/// The settings after one line. White space around the line, the key and the value says nothing,
/// and neither do quotation marks around the value.
pub open spec fn with_line(settings: OledSettings, raw: Seq<char>) -> Result<
    OledSettings,
    OledProblem,
> {
    let line = text::trimmed(raw);
    if text::is_blank(line) {
        Ok(settings)
    } else {
        match text::split_first(line, '=') {
            None => Err(OledProblem::MissingEquals),
            Some((key, value)) => with_setting(
                settings,
                text::trimmed(key),
                text::unquoted(text::trimmed(value)),
            ),
        }
    }
}

/// The default settings after the given lines, or the first fault and the number of its line.
pub open spec fn read_lines(lines: Seq<Seq<char>>) -> Result<OledSettings, (nat, OledProblem)>
    decreases lines.len(),
{
    if lines.len() == 0 {
        Ok(default_settings())
    } else {
        match read_lines(lines.drop_last()) {
            Err(fault) => Err(fault),
            Ok(settings) => match with_line(settings, lines.last()) {
                Ok(next) => Ok(next),
                Err(problem) => Err((lines.len(), problem)),
            },
        }
    }
}

/// What an OLED configuration says.
pub open spec fn read_config(input: Seq<char>) -> Result<OledSettings, (nat, OledProblem)> {
    read_lines(text::lines_of(input))
}

/// The names of pages with spaces between them.
pub open spec fn page_list(pages: Seq<OledPage>) -> Seq<char>
    decreases pages.len(),
{
    if pages.len() == 0 {
        seq![]
    } else if pages.len() == 1 {
        page_name(pages[0])
    } else {
        page_name(pages[0]) + seq![' '] + page_list(pages.drop_first())
    }
}

/// How a switch is written.
pub open spec fn switch_text(enabled: bool) -> Seq<char> {
    if enabled {
        "Y"@
    } else {
        "N"@
    }
}

/// How settings are written.
pub open spec fn config_text(settings: OledSettings) -> Seq<char> {
    let saver = match settings.screensaver_seconds {
        Some(seconds) => seconds,
        None => 0,
    };
    "#"@ + seq!['\n'] + ("# Argon OLED Configuration"@ + seq!['\n'] + ("#"@ + seq!['\n'] + ((
    "enabled"@ + seq!['='] + switch_text(settings.enabled)) + seq!['\n'] + (("switchduration"@
        + seq!['='] + text::decimal(settings.switch_seconds as nat)) + seq!['\n'] + (("screensaver"@
        + seq!['='] + text::decimal(saver as nat)) + seq!['\n'] + (("screenlist"@ + seq!['='] + (
    seq!['"'] + page_list(settings.pages) + seq!['"'])) + seq!['\n'] + seq![]))))))
}

impl OledPage {
    /// The page with the given name.
    pub fn parse(value: &str) -> (r: Option<OledPage>)
        ensures
            r == page_named(value@),
    {
        let chars = text::to_chars(value);
        OledPage::parse_chars(chars.as_slice())
    }

    fn parse_chars(value: &[char]) -> (r: Option<OledPage>)
        ensures
            r == page_named(value@),
    {
        if text::reads(value, "clock") {
            Some(OledPage::Clock)
        } else if text::reads(value, "cpu") {
            Some(OledPage::Cpu)
        } else if text::reads(value, "storage") {
            Some(OledPage::Storage)
        } else if text::reads(value, "raid") {
            Some(OledPage::Raid)
        } else if text::reads(value, "ram") {
            Some(OledPage::Ram)
        } else if text::reads(value, "temp") {
            Some(OledPage::Temperature)
        } else if text::reads(value, "ip") {
            Some(OledPage::Ip)
        } else {
            None
        }
    }

    /// The name of the page.
    pub fn as_str(self) -> (r: &'static str)
        ensures
            r@ == page_name(self),
    {
        match self {
            OledPage::Clock => "clock",
            OledPage::Cpu => "cpu",
            OledPage::Storage => "storage",
            OledPage::Raid => "raid",
            OledPage::Ram => "ram",
            OledPage::Temperature => "temp",
            OledPage::Ip => "ip",
        }
    }
}

/// An unknown name among the first names is the fault of all.
proof fn lemma_first_unknown(names: Seq<Seq<char>>, n: int)
    requires
        0 <= n <= names.len(),
        pages_named(names.take(n)) is Err,
    ensures
        pages_named(names) == pages_named(names.take(n)),
    decreases names.len(),
{
    if n == names.len() {
        assert(names.take(n) == names);
    } else {
        assert(names.drop_last().take(n) == names.take(n));
        lemma_first_unknown(names.drop_last(), n);
    }
}

/// The pages named by `words`, or the first name that is none.
fn parse_pages(words: &Vec<&[char]>) -> (r: Result<Vec<OledPage>, String>)
    ensures
        match r {
            Ok(pages) => pages_named(text::views(words@)) == Ok::<Seq<OledPage>, Seq<char>>(pages@),
            Err(name) => pages_named(text::views(words@)) == Err::<Seq<OledPage>, Seq<char>>(name@),
        },
{
    let ghost names = text::views(words@);
    let mut pages: Vec<OledPage> = Vec::new();
    let mut index: usize = 0;
    assert(names.take(0) =~= Seq::empty());
    while index < words.len()
        invariant
            names == text::views(words@),
            index <= words@.len(),
            pages_named(names.take(index as int)) == Ok::<Seq<OledPage>, Seq<char>>(pages@),
        decreases words@.len() - index,
    {
        let ghost next = names.take(index + 1);
        assert(next.drop_last() == names.take(index as int));
        assert(next.last() == words@[index as int]@);
        match OledPage::parse_chars(words[index]) {
            Some(page) => {
                pages.push(page);
            },
            None => {
                proof {
                    lemma_first_unknown(names, index + 1);
                }
                return Err(text::to_text(words[index]));
            },
        }
        index += 1;
    }
    assert(names.take(index as int) == names);
    Ok(pages)
}

impl Default for OledConfig {
    fn default() -> (r: Self)
        ensures
            r@ == default_settings(),
    {
        let mut pages: Vec<OledPage> = Vec::new();
        pages.push(OledPage::Clock);
        pages.push(OledPage::Ip);
        assert(pages@ =~= seq![OledPage::Clock, OledPage::Ip]);
        OledConfig { enabled: true, switch_seconds: 0, screensaver_seconds: Some(120), pages }
    }
}

/// A faulty line among the first lines is the fault of the file.
proof fn lemma_first_faulty_line(lines: Seq<Seq<char>>, n: int)
    requires
        0 <= n <= lines.len(),
        read_lines(lines.take(n)) is Err,
    ensures
        read_lines(lines) == read_lines(lines.take(n)),
    decreases lines.len(),
{
    if n == lines.len() {
        assert(lines.take(n) == lines);
    } else {
        assert(lines.drop_last().take(n) == lines.take(n));
        lemma_first_faulty_line(lines.drop_last(), n);
    }
}

/// The outcome of reading a configuration.
pub open spec fn outcome(r: Result<OledConfig, OledConfigError>) -> Result<
    OledSettings,
    (nat, OledProblem),
> {
    match r {
        Ok(config) => Ok(config@),
        Err(error) => Err((error.line as nat, error.fault@)),
    }
}

impl OledConfig {
    /// Gives `key` the value `value`.
    fn set(self, key: &[char], value: &[char]) -> (r: Result<OledConfig, OledConfigFault>)
        ensures
            match r {
                Ok(config) => with_setting(self@, key@, value@) == Ok::<OledSettings, OledProblem>(
                    config@,
                ),
                Err(fault) => with_setting(self@, key@, value@) == Err::<OledSettings, OledProblem>(
                    fault@,
                ),
            },
    {
        if text::reads(key, "enabled") {
            if text::reads(value, "Y") || text::reads(value, "y") {
                Ok(OledConfig { enabled: true, ..self })
            } else if text::reads(value, "N") || text::reads(value, "n") {
                Ok(OledConfig { enabled: false, ..self })
            } else {
                Err(OledConfigFault::Enabled)
            }
        } else if text::reads(key, "switchduration") {
            match text::parse_u64(value) {
                Some(seconds) => Ok(OledConfig { switch_seconds: seconds, ..self }),
                None => Err(OledConfigFault::SwitchDuration),
            }
        } else if text::reads(key, "screensaver") {
            match text::parse_u64(value) {
                Some(seconds) => Ok(
                    OledConfig {
                        screensaver_seconds: if seconds != 0 {
                            Some(seconds)
                        } else {
                            None
                        },
                        ..self
                    },
                ),
                None => Err(OledConfigFault::Screensaver),
            }
        } else if text::reads(key, "screenlist") {
            let words = text::split_whitespace(value);
            match parse_pages(&words) {
                Ok(pages) => Ok(OledConfig { pages, ..self }),
                Err(name) => Err(OledConfigFault::UnknownPage { name }),
            }
        } else {
            Err(OledConfigFault::UnknownKey { key: text::to_text(key) })
        }
    }

    /// Reads a configuration; what it does not mention keeps its default.
    pub fn parse(input: &str) -> (r: Result<OledConfig, OledConfigError>)
        ensures
            outcome(r) == read_config(input@),
    {
        let chars = text::to_chars(input);
        let lines = text::lines(chars.as_slice());
        let ghost rows = text::views(lines@);
        let mut config = OledConfig::default();
        let mut index: usize = 0;
        assert(rows.take(0) =~= Seq::empty());
        while index < lines.len()
            invariant
                rows == text::views(lines@),
                rows == text::lines_of(input@),
                index <= lines@.len(),
                read_lines(rows.take(index as int)) == Ok::<OledSettings, (nat, OledProblem)>(
                    config@,
                ),
            decreases lines@.len() - index,
        {
            let ghost next = rows.take(index + 1);
            assert(next.drop_last() == rows.take(index as int));
            assert(next.last() == lines@[index as int]@);
            let line = text::trim(lines[index]);
            if !text::says_nothing(line) {
                match text::split_once(line, '=') {
                    None => {
                        proof {
                            lemma_first_faulty_line(rows, index + 1);
                        }
                        return Err(
                            OledConfigError {
                                line: index + 1,
                                fault: OledConfigFault::MissingEquals,
                            },
                        );
                    },
                    Some((key, raw)) => {
                        match config.set(text::trim(key), text::unquote(text::trim(raw))) {
                            Ok(changed) => {
                                config = changed;
                            },
                            Err(fault) => {
                                proof {
                                    lemma_first_faulty_line(rows, index + 1);
                                }
                                return Err(OledConfigError { line: index + 1, fault });
                            },
                        }
                    },
                }
            }
            index += 1;
        }
        assert(rows.take(index as int) == rows);
        Ok(config)
    }

    /// The configuration as it is written.
    pub fn serialize(&self) -> (r: String)
        ensures
            r@ == config_text(self@),
    {
        let mut out = String::new();
        out.append("#");
        out.push('\n');
        out.append("# Argon OLED Configuration");
        out.push('\n');
        out.append("#");
        out.push('\n');
        out.append("enabled");
        out.push('=');
        out.append(if self.enabled { "Y" } else { "N" });
        out.push('\n');
        out.append("switchduration");
        out.push('=');
        text::push_decimal(&mut out, self.switch_seconds);
        out.push('\n');
        out.append("screensaver");
        out.push('=');
        text::push_decimal(&mut out, self.screensaver_seconds.unwrap_or(0));
        out.push('\n');
        out.append("screenlist");
        out.push('=');
        out.push('"');
        push_page_list(&mut out, &self.pages);
        out.push('"');
        out.push('\n');
        assert(out@ =~= config_text(self@));
        out
    }
}

/// Appends the names of `pages` with spaces between them.
fn push_page_list(out: &mut String, pages: &Vec<OledPage>)
    ensures
        final(out)@ == old(out)@ + page_list(pages@),
{
    let ghost start = out@;
    let mut index: usize = 0;
    assert(pages@.skip(0) == pages@);
    while index < pages.len()
        invariant
            index <= pages@.len(),
            start + page_list(pages@) == out@ + (if index == 0 || index == pages@.len() {
                page_list(pages@.skip(index as int))
            } else {
                seq![' '] + page_list(pages@.skip(index as int))
            }),
        decreases pages@.len() - index,
    {
        let ghost before = out@;
        let ghost rest = pages@.skip(index as int);
        if index > 0 {
            out.push(' ');
        }
        out.append(pages[index].as_str());
        assert(rest[0] == pages@[index as int]);
        assert(rest.drop_first() == pages@.skip(index + 1));
        assert(rest.len() == 1 ==> pages@.skip(index + 1).len() == 0);
        index += 1;
        assert(start + page_list(pages@) =~= out@ + (if index == pages@.len() {
            page_list(pages@.skip(index as int))
        } else {
            seq![' '] + page_list(pages@.skip(index as int))
        }));
    }
    assert(pages@.skip(index as int).len() == 0);
    assert(out@ =~= start + page_list(pages@));
}

/// Every name is the name of its page, and of no other.
pub proof fn law_page_names(page: OledPage)
    ensures
        page_named(page_name(page)) == Some(page),
        text::is_word(page_name(page)),
        page_name(page)[0] != '"',
        page_name(page).last() != '"',
        forall|name: Seq<char>| #[trigger] page_named(name) == Some(page) ==> name == page_name(page),
{
    reveal_strlit("clock");
    reveal_strlit("cpu");
    reveal_strlit("storage");
    reveal_strlit("raid");
    reveal_strlit("ram");
    reveal_strlit("temp");
    reveal_strlit("ip");
    assert("clock"@.len() == 5 && "cpu"@.len() == 3 && "storage"@.len() == 7 && "raid"@.len() == 4
        && "ram"@.len() == 3 && "temp"@.len() == 4 && "ip"@.len() == 2);
    assert("ram"@[0] != "cpu"@[0]);
    assert("temp"@[0] != "raid"@[0]);
}

/// Names read back as their pages.
proof fn lemma_pages_read_back(pages: Seq<OledPage>)
    ensures
        pages_named(Seq::new(pages.len(), |i: int| page_name(pages[i]))) == Ok::<
            Seq<OledPage>,
            Seq<char>,
        >(pages),
    decreases pages.len(),
{
    let names = Seq::new(pages.len(), |i: int| page_name(pages[i]));
    if pages.len() > 0 {
        let head = pages.drop_last();
        lemma_pages_read_back(head);
        assert(names.drop_last() =~= Seq::new(head.len(), |i: int| page_name(head[i])));
        law_page_names(pages.last());
        assert(head.push(pages.last()) =~= pages);
    } else {
        assert(pages =~= Seq::empty());
    }
}

/// The words and the ends of a list of pages.
proof fn lemma_page_list(pages: Seq<OledPage>)
    ensures
        text::words_of(page_list(pages)) == Seq::new(pages.len(), |i: int| page_name(pages[i])),
        text::free_of(page_list(pages), '\n'),
        page_list(pages).len() > 0 ==> page_list(pages)[0] != '"' && page_list(pages).last() != '"',
        pages.len() > 0 ==> page_list(pages).len() > 0,
    decreases pages.len(),
{
    let names = Seq::new(pages.len(), |i: int| page_name(pages[i]));
    if pages.len() == 0 {
        assert(text::words_of(page_list(pages)) =~= names);
    } else {
        let first = page_name(pages[0]);
        law_page_names(pages[0]);
        assert forall|i: int| 0 <= i < first.len() implies first[i] != '\n' by {
            assert(!text::is_space(first[i]));
        }
        if pages.len() == 1 {
            text::lemma_last_word(first);
            assert(seq![first] =~= names);
        } else {
            let rest = pages.drop_first();
            lemma_page_list(rest);
            text::lemma_word(first, page_list(rest));
            assert(seq![first] + Seq::new(rest.len(), |i: int| page_name(rest[i])) =~= names);
            let all = page_list(pages);
            assert forall|i: int| 0 <= i < all.len() implies all[i] != '\n' by {
                if i < first.len() {
                    assert(all[i] == first[i]);
                } else if i > first.len() {
                    assert(all[i] == page_list(rest)[i - first.len() - 1]);
                }
            }
            assert(all[0] == first[0]);
            assert(all.last() == page_list(rest).last());
        }
    }
}

/// A line that gives `key` a value.
proof fn lemma_setting_line(
    settings: OledSettings,
    key: Seq<char>,
    raw: Seq<char>,
    value: Seq<char>,
)
    requires
        text::is_word(key),
        text::free_of(key, '='),
        key[0] != '#',
        raw.len() > 0,
        !text::is_space(raw[0]),
        !text::is_space(raw.last()),
        text::unquoted(raw) == value,
    ensures
        with_line(settings, key + seq!['='] + raw) == with_setting(settings, key, value),
{
    let line = key + seq!['='] + raw;
    assert(line[0] == key[0]);
    assert(!text::is_space(key[0]));
    assert(line.last() == raw.last());
    text::lemma_trimmed(line);
    text::lemma_piece(key, '=', raw);
    assert(!text::is_space(key[key.len() - 1]));
    text::lemma_trimmed(key);
    text::lemma_trimmed(raw);
}

/// One line more.
proof fn lemma_read_push(lines: Seq<Seq<char>>, line: Seq<char>)
    ensures
        match read_lines(lines) {
            Ok(settings) => with_line(settings, line) is Ok ==> read_lines(lines.push(line)) == Ok::<
                OledSettings,
                (nat, OledProblem),
            >(with_line(settings, line)->Ok_0),
            Err(_) => true,
        },
{
    assert(lines.push(line).drop_last() =~= lines);
}

/// The keys are different words without `=`.
proof fn lemma_keys()
    ensures
        forall|key: Seq<char>|
            key == "enabled"@ || key == "switchduration"@ || key == "screensaver"@ || key
                == "screenlist"@ ==> #[trigger] text::is_word(key) && text::free_of(key, '=')
                && text::free_of(key, '\n') && key[0] != '#',
        "enabled"@ != "switchduration"@,
        "enabled"@ != "screensaver"@,
        "switchduration"@ != "screensaver"@,
        "enabled"@ != "screenlist"@,
        "switchduration"@ != "screenlist"@,
        "screensaver"@ != "screenlist"@,
{
    reveal_strlit("enabled");
    reveal_strlit("switchduration");
    reveal_strlit("screensaver");
    reveal_strlit("screenlist");
    assert("enabled"@.len() == 7 && "switchduration"@.len() == 14 && "screensaver"@.len() == 11
        && "screenlist"@.len() == 10);
    reveal_with_fuel(text::free_upto, 15);
    reveal_with_fuel(text::word_upto, 15);
    assert forall|key: Seq<char>|
        key == "enabled"@ || key == "switchduration"@ || key == "screensaver"@ || key
            == "screenlist"@ implies #[trigger] text::is_word(key) && text::free_of(key, '=')
        && text::free_of(key, '\n') && key[0] != '#' by {
        text::lemma_free_upto(key, '=', key.len());
        text::lemma_free_upto(key, '\n', key.len());
        text::lemma_word_upto(key, key.len());
    }
}

/// What makes a line of the file one line.
spec fn one_line(line: Seq<char>) -> bool {
    text::free_of(line, '\n') && line.len() > 0 && line.last() != '\r'
}

/// The line of the switch.
proof fn lemma_enabled_line(settings: OledSettings, enabled: bool)
    ensures
        with_line(settings, "enabled"@ + seq!['='] + switch_text(enabled)) == Ok::<
            OledSettings,
            OledProblem,
        >(OledSettings { enabled, ..settings }),
        one_line("enabled"@ + seq!['='] + switch_text(enabled)),
{
    lemma_keys();
    reveal_strlit("Y");
    reveal_strlit("N");
    reveal_strlit("y");
    reveal_strlit("n");
    assert(text::is_word("enabled"@));
    assert("N"@[0] != "Y"@[0] && "N"@[0] != "y"@[0]);
    lemma_setting_line(settings, "enabled"@, switch_text(enabled), switch_text(enabled));
}

/// The lines of the two times.
proof fn lemma_seconds_lines(settings: OledSettings, seconds: u64)
    ensures
        with_line(settings, "switchduration"@ + seq!['='] + text::decimal(seconds as nat)) == Ok::<
            OledSettings,
            OledProblem,
        >(OledSettings { switch_seconds: seconds, ..settings }),
        one_line("switchduration"@ + seq!['='] + text::decimal(seconds as nat)),
        with_line(settings, "screensaver"@ + seq!['='] + text::decimal(seconds as nat)) == Ok::<
            OledSettings,
            OledProblem,
        >(OledSettings { screensaver_seconds: screensaver(seconds), ..settings }),
        one_line("screensaver"@ + seq!['='] + text::decimal(seconds as nat)),
{
    lemma_keys();
    let value = text::decimal(seconds as nat);
    text::lemma_decimal_word(seconds as nat, '\n');
    text::lemma_decimal(seconds as nat);
    text::lemma_number_of_decimal(seconds as nat, u64::MAX as nat);
    assert(text::is_digit(value[0]) && text::is_digit(value[value.len() - 1]));
    assert(text::is_word("switchduration"@));
    assert(text::is_word("screensaver"@));
    lemma_setting_line(settings, "switchduration"@, value, value);
    lemma_setting_line(settings, "screensaver"@, value, value);
}

/// The line of the pages.
proof fn lemma_list_line(settings: OledSettings, pages: Seq<OledPage>)
    ensures
        with_line(
            settings,
            "screenlist"@ + seq!['='] + (seq!['"'] + page_list(pages) + seq!['"']),
        ) == Ok::<OledSettings, OledProblem>(OledSettings { pages, ..settings }),
        one_line("screenlist"@ + seq!['='] + (seq!['"'] + page_list(pages) + seq!['"'])),
{
    lemma_keys();
    lemma_page_list(pages);
    lemma_pages_read_back(pages);
    text::lemma_unquoted(page_list(pages));
    assert(text::is_word("screenlist"@));
    lemma_setting_line(
        settings,
        "screenlist"@,
        seq!['"'] + page_list(pages) + seq!['"'],
        page_list(pages),
    );
}

/// The lines of the comment.
proof fn lemma_comment_lines(settings: OledSettings)
    ensures
        with_line(settings, "#"@) == Ok::<OledSettings, OledProblem>(settings),
        with_line(settings, "# Argon OLED Configuration"@) == Ok::<OledSettings, OledProblem>(
            settings,
        ),
        one_line("#"@),
        one_line("# Argon OLED Configuration"@),
{
    reveal_strlit("#");
    reveal_strlit("# Argon OLED Configuration");
    let comment = "# Argon OLED Configuration"@;
    reveal_with_fuel(text::free_upto, 27);
    text::lemma_free_upto(comment, '\n', comment.len());
    text::lemma_trimmed("#"@);
    text::lemma_trimmed(comment);
}

/// Writing settings and reading them gives the settings back. A screensaver time of zero is no
/// screensaver, and is written as such.
pub proof fn law_config_reads_back(settings: OledSettings)
    requires
        settings.screensaver_seconds != Some(0u64),
    ensures
        read_config(config_text(settings)) == Ok::<OledSettings, (nat, OledProblem)>(settings),
{
    let saver = match settings.screensaver_seconds {
        Some(seconds) => seconds,
        None => 0,
    };
    let l1 = "#"@;
    let l2 = "# Argon OLED Configuration"@;
    let l4 = "enabled"@ + seq!['='] + switch_text(settings.enabled);
    let l5 = "switchduration"@ + seq!['='] + text::decimal(settings.switch_seconds as nat);
    let l6 = "screensaver"@ + seq!['='] + text::decimal(saver as nat);
    let l7 = "screenlist"@ + seq!['='] + (seq!['"'] + page_list(settings.pages) + seq!['"']);
    let s0 = default_settings();
    let s4 = OledSettings { enabled: settings.enabled, ..s0 };
    let s5 = OledSettings { switch_seconds: settings.switch_seconds, ..s4 };
    let s6 = OledSettings { screensaver_seconds: settings.screensaver_seconds, ..s5 };
    lemma_comment_lines(s0);
    lemma_enabled_line(s0, settings.enabled);
    lemma_seconds_lines(s4, settings.switch_seconds);
    lemma_seconds_lines(s5, saver);
    lemma_list_line(s6, settings.pages);
    let r7 = l7 + seq!['\n'] + seq![];
    let r6 = l6 + seq!['\n'] + r7;
    let r5 = l5 + seq!['\n'] + r6;
    let r4 = l4 + seq!['\n'] + r5;
    let r3 = l1 + seq!['\n'] + r4;
    let r2 = l2 + seq!['\n'] + r3;
    text::lemma_line(l7, seq![]);
    text::lemma_line(l6, r7);
    text::lemma_line(l5, r6);
    text::lemma_line(l4, r5);
    text::lemma_line(l1, r4);
    text::lemma_line(l2, r3);
    text::lemma_line(l1, r2);
    assert(text::lines_of(seq![]) == Seq::<Seq<char>>::empty());
    let none = Seq::<Seq<char>>::empty();
    let rows = none.push(l1).push(l2).push(l1).push(l4).push(l5).push(l6).push(l7);
    assert(text::lines_of(config_text(settings)) =~= rows);
    lemma_read_push(none, l1);
    lemma_read_push(none.push(l1), l2);
    lemma_read_push(none.push(l1).push(l2), l1);
    lemma_read_push(none.push(l1).push(l2).push(l1), l4);
    lemma_read_push(none.push(l1).push(l2).push(l1).push(l4), l5);
    lemma_read_push(none.push(l1).push(l2).push(l1).push(l4).push(l5), l6);
    lemma_read_push(none.push(l1).push(l2).push(l1).push(l4).push(l5).push(l6), l7);
}

/// Settings that a configuration can give never hold a screensaver time of zero.
pub proof fn law_screensaver_is_never_zero(input: Seq<char>)
    ensures
        read_config(input) matches Ok(settings) ==> settings.screensaver_seconds != Some(0u64),
{
    lemma_screensaver(text::lines_of(input));
}

proof fn lemma_screensaver(lines: Seq<Seq<char>>)
    ensures
        read_lines(lines) matches Ok(settings) ==> settings.screensaver_seconds != Some(0u64),
    decreases lines.len(),
{
    if lines.len() > 0 {
        lemma_screensaver(lines.drop_last());
    }
}

/// What is to be changed in the settings of the OLED.
#[derive(Debug, Clone, PartialEq, Eq)]
pub struct OledChange {
    pub enabled: Option<bool>,
    pub switch_seconds: Option<u64>,
    /// Zero means none.
    pub screensaver_seconds: Option<u64>,
    pub pages: Option<Vec<String>>,
}

/// The texts of strings.
pub open spec fn texts(strings: Seq<String>) -> Seq<Seq<char>> {
    Seq::new(strings.len(), |i: int| strings[i]@)
}

/// The settings with the changes, or the first name that is not that of a page.
pub open spec fn changed(settings: OledSettings, change: OledChange) -> Result<
    OledSettings,
    Seq<char>,
> {
    let rest = OledSettings {
        enabled: match change.enabled {
            Some(enabled) => enabled,
            None => settings.enabled,
        },
        switch_seconds: match change.switch_seconds {
            Some(seconds) => seconds,
            None => settings.switch_seconds,
        },
        screensaver_seconds: match change.screensaver_seconds {
            Some(seconds) => screensaver(seconds),
            None => settings.screensaver_seconds,
        },
        pages: settings.pages,
    };
    match change.pages {
        Some(names) => match pages_named(texts(names@)) {
            Ok(pages) => Ok(OledSettings { pages, ..rest }),
            Err(name) => Err(name),
        },
        None => Ok(rest),
    }
}

impl OledConfig {
    /// The settings with the changes; otherwise the first name that is not that of a page.
    pub fn change(self, change: &OledChange) -> (r: Result<OledConfig, String>)
        ensures
            match r {
                Ok(config) => changed(self@, *change) == Ok::<OledSettings, Seq<char>>(config@),
                Err(name) => changed(self@, *change) == Err::<OledSettings, Seq<char>>(name@),
            },
    {
        let mut config = self;
        if let Some(enabled) = change.enabled {
            config.enabled = enabled;
        }
        if let Some(seconds) = change.switch_seconds {
            config.switch_seconds = seconds;
        }
        if let Some(seconds) = change.screensaver_seconds {
            config.screensaver_seconds = if seconds != 0 {
                Some(seconds)
            } else {
                None
            };
        }
        if let Some(names) = &change.pages {
            let ghost all = texts(names@);
            let mut pages: Vec<OledPage> = Vec::new();
            let mut i: usize = 0;
            assert(all.take(0) =~= Seq::empty());
            while i < names.len()
                invariant
                    change.pages == Some(*names),
                    all == texts(names@),
                    i <= names@.len(),
                    pages_named(all.take(i as int)) == Ok::<Seq<OledPage>, Seq<char>>(pages@),
                decreases names@.len() - i,
            {
                assert(all.take(i + 1).drop_last() =~= all.take(i as int));
                assert(all.take(i + 1).last() == names@[i as int]@);
                match OledPage::parse(names[i].as_str()) {
                    Some(page) => {
                        pages.push(page);
                    },
                    None => {
                        proof {
                            lemma_first_unknown(all, i + 1);
                        }
                        let chars = text::to_chars(names[i].as_str());
                        return Err(text::to_text(chars.as_slice()));
                    },
                }
                i += 1;
            }
            assert(all.take(i as int) =~= all);
            config.pages = pages;
        }
        Ok(config)
    }
}

/// The name of the file that is written before it takes the place of a configuration.
pub fn temporary_name(name: Option<&str>) -> (r: String)
    ensures
        r@ == "."@ + (match name {
            Some(name) => name@,
            None => "config"@,
        }) + ".argon40.tmp"@,
{
    let mut out = String::new();
    out.append(".");
    out.append(
        match name {
            Some(name) => name,
            None => "config",
        },
    );
    out.append(".argon40.tmp");
    assert(Seq::<char>::empty() + "."@ =~= "."@);
    out
}

/// Lines, each with its ending.
pub open spec fn ended_lines(lines: Seq<String>) -> Seq<char>
    decreases lines.len(),
{
    if lines.len() == 0 {
        seq![]
    } else {
        ended_lines(lines.drop_last()) + lines.last()@ + seq!['\n']
    }
}

/// The text of a fan configuration with the given points. There is at least one.
pub fn fan_config_text(pairs: &[String]) -> (r: String)
    requires
        pairs@.len() > 0,
    ensures
        r@ == "# Argon40 fan curve"@ + seq!['\n'] + ended_lines(pairs@),
{
    let mut out = String::new();
    out.append("# Argon40 fan curve");
    out.push('\n');
    let ghost head = out@;
    assert(head =~= "# Argon40 fan curve"@ + seq!['\n']);
    let mut i: usize = 0;
    assert(pairs@.take(0) =~= Seq::empty());
    assert(head + ended_lines(pairs@.take(0)) =~= head);
    while i < pairs.len()
        invariant
            i <= pairs@.len(),
            out@ == head + ended_lines(pairs@.take(i as int)),
        decreases pairs@.len() - i,
    {
        let ghost before = out@;
        assert(pairs@.take(i + 1).drop_last() =~= pairs@.take(i as int));
        out.append(pairs[i].as_str());
        out.push('\n');
        assert(out@ =~= head + ended_lines(pairs@.take(i + 1)));
        i += 1;
    }
    assert(pairs@.take(i as int) =~= pairs@);
    out
}

/// Whether a text is one line: no line ends in it, and it does not end with a carriage return.
pub open spec fn is_line(text: Seq<char>) -> bool {
    text::free_of(text, '\n') && (text.len() > 0 ==> text.last() != '\r')
}

/// Lines with their endings, from the front.
proof fn lemma_ended_lines(lines: Seq<String>)
    requires
        lines.len() > 0,
    ensures
        ended_lines(lines) == lines[0]@ + seq!['\n'] + ended_lines(lines.drop_first()),
    decreases lines.len(),
{
    let rest = lines.drop_first();
    if rest.len() == 0 {
        assert(lines.drop_last() =~= Seq::empty());
        assert(ended_lines(lines.drop_last()) =~= Seq::empty());
        assert(ended_lines(rest) =~= Seq::empty());
        assert(ended_lines(lines) =~= lines[0]@ + seq!['\n'] + ended_lines(rest));
    } else {
        lemma_ended_lines(lines.drop_last());
        assert(lines.drop_last().drop_first() =~= rest.drop_last());
        assert(ended_lines(lines) =~= lines[0]@ + seq!['\n'] + ended_lines(rest));
    }
}

proof fn lemma_lines_of_ended_lines(lines: Seq<String>)
    requires
        forall|i: int| 0 <= i < lines.len() ==> is_line((#[trigger] lines[i])@),
    ensures
        text::lines_of(ended_lines(lines)) == texts(lines),
    decreases lines.len(),
{
    if lines.len() == 0 {
        assert(text::lines_of(ended_lines(lines)) =~= texts(lines));
    } else {
        let rest = lines.drop_first();
        assert forall|i: int| 0 <= i < rest.len() implies is_line((#[trigger] rest[i])@) by {
            assert(rest[i] == lines[i + 1]);
        }
        lemma_lines_of_ended_lines(rest);
        lemma_ended_lines(lines);
        assert(is_line(lines[0]@));
        text::lemma_line(lines[0]@, ended_lines(rest));
        assert(seq![lines[0]@] + texts(rest) =~= texts(lines));
    }
}

/// The lines of a fan configuration are a comment and the points that it was written with.
pub proof fn law_fan_config_lines(pairs: Seq<String>)
    requires
        forall|i: int| 0 <= i < pairs.len() ==> is_line((#[trigger] pairs[i])@),
    ensures
        text::lines_of("# Argon40 fan curve"@ + seq!['\n'] + ended_lines(pairs)) == seq![
            "# Argon40 fan curve"@,
        ] + texts(pairs),
        text::is_blank("# Argon40 fan curve"@),
{
    reveal_strlit("# Argon40 fan curve");
    let head = "# Argon40 fan curve"@;
    assert(head.len() == 19);
    reveal_with_fuel(text::free_upto, 20);
    assert(text::free_upto(head, '\n', 19));
    text::lemma_free_upto(head, '\n', 19);
    text::lemma_line(head, ended_lines(pairs));
    lemma_lines_of_ended_lines(pairs);
}

/// The pages have these names.
pub proof fn law_names_of_the_pages()
    ensures
        page_named("clock"@) == Some(OledPage::Clock),
        page_named("cpu"@) == Some(OledPage::Cpu),
        page_named("storage"@) == Some(OledPage::Storage),
        page_named("raid"@) == Some(OledPage::Raid),
        page_named("ram"@) == Some(OledPage::Ram),
        page_named("temp"@) == Some(OledPage::Temperature),
        page_named("ip"@) == Some(OledPage::Ip),
        forall|name: Seq<char>| #[trigger] page_named(name) matches Some(page) ==> page_name(page)
            == name,
{
    reveal_strlit("clock");
    reveal_strlit("cpu");
    reveal_strlit("storage");
    reveal_strlit("raid");
    reveal_strlit("ram");
    reveal_strlit("temp");
    reveal_strlit("ip");
    assert("clock"@.len() == 5 && "cpu"@.len() == 3 && "storage"@.len() == 7 && "raid"@.len() == 4
        && "ram"@.len() == 3 && "temp"@.len() == 4 && "ip"@.len() == 2);
    assert("cpu"@[0] == 'c' && "ram"@[0] == 'r' && "raid"@[0] == 'r' && "temp"@[0] == 't');
}

/// A list of pages has one page for each name, in their order; of names without a page the first
/// is told.
pub proof fn law_pages_by_their_names(names: Seq<Seq<char>>)
    ensures
        match pages_named(names) {
            Ok(pages) => pages.len() == names.len() && forall|i: int|
                0 <= i < names.len() ==> page_named(names[i]) == Some(#[trigger] pages[i]),
            Err(name) => exists|i: int|
                {
                    &&& 0 <= i < names.len()
                    &&& #[trigger] names[i] == name
                    &&& page_named(name) is None
                    &&& forall|k: int| 0 <= k < i ==> page_named(#[trigger] names[k]) is Some
                },
        },
    decreases names.len(),
{
    if names.len() > 0 {
        let head = names.drop_last();
        law_pages_by_their_names(head);
        match pages_named(head) {
            Ok(pages) => {
                assert forall|k: int| 0 <= k < head.len() implies page_named(
                    #[trigger] names[k],
                ) is Some by {
                    assert(head[k] == names[k]);
                    assert(page_named(head[k]) == Some(pages[k]));
                }
                assert(names[names.len() - 1] == names.last());
                if let Some(page) = page_named(names.last()) {
                    let all = pages.push(page);
                    assert forall|i: int| 0 <= i < names.len() implies page_named(names[i])
                        == Some(#[trigger] all[i]) by {
                        if i < head.len() {
                            assert(all[i] == pages[i]);
                            assert(head[i] == names[i]);
                        }
                    }
                }
            },
            Err(name) => {
                let i = choose|i: int|
                    {
                        &&& 0 <= i < head.len()
                        &&& #[trigger] head[i] == name
                        &&& page_named(name) is None
                        &&& forall|k: int| 0 <= k < i ==> page_named(#[trigger] head[k]) is Some
                    };
                assert(names[i] == head[i]);
                assert forall|k: int| 0 <= k < i implies page_named(#[trigger] names[k]) is Some by {
                    assert(head[k] == names[k]);
                }
            },
        }
    }
}

/// A setting changes what it is for and nothing else: whether the display is used, by a letter for
/// yes or no; the seconds between two pages; those until the display is switched off, none for
/// zero; and the pages, by their names.
pub proof fn law_setting_changes_what_it_is_for(
    settings: OledSettings,
    key: Seq<char>,
    value: Seq<char>,
)
    ensures
        match with_setting(settings, key, value) {
            Ok(after) => {
                &&& key == "enabled"@ || key == "switchduration"@ || key == "screensaver"@ || key
                    == "screenlist"@
                &&& key == "enabled"@ ==> (after.enabled <==> value == "Y"@ || value == "y"@) && (
                !after.enabled <==> value == "N"@ || value == "n"@)
                &&& key != "enabled"@ ==> after.enabled == settings.enabled
                &&& key == "switchduration"@ ==> text::number(value, u64::MAX as nat) == Some(
                    after.switch_seconds as nat,
                )
                &&& key != "switchduration"@ ==> after.switch_seconds == settings.switch_seconds
                &&& key == "screensaver"@ ==> text::number(value, u64::MAX as nat) == Some(
                    (match after.screensaver_seconds {
                        Some(seconds) => seconds as nat,
                        None => 0nat,
                    }),
                ) && after.screensaver_seconds != Some(0u64)
                &&& key != "screensaver"@ ==> after.screensaver_seconds
                    == settings.screensaver_seconds
                &&& key == "screenlist"@ ==> pages_named(text::words_of(value)) == Ok::<
                    Seq<OledPage>,
                    Seq<char>,
                >(after.pages)
                &&& key != "screenlist"@ ==> after.pages == settings.pages
            },
            Err(OledProblem::Enabled) => key == "enabled"@ && value != "Y"@ && value != "y"@
                && value != "N"@ && value != "n"@,
            Err(OledProblem::SwitchDuration) => key == "switchduration"@ && text::number(
                value,
                u64::MAX as nat,
            ) is None,
            Err(OledProblem::Screensaver) => key == "screensaver"@ && text::number(
                value,
                u64::MAX as nat,
            ) is None,
            Err(OledProblem::UnknownPage { name }) => key == "screenlist"@ && pages_named(
                text::words_of(value),
            ) == Err::<Seq<OledPage>, Seq<char>>(name),
            Err(OledProblem::UnknownKey { key: unknown }) => unknown == key && key != "enabled"@
                && key != "switchduration"@ && key != "screensaver"@ && key != "screenlist"@,
            Err(OledProblem::MissingEquals) => false,
        },
{
    reveal_strlit("enabled");
    reveal_strlit("switchduration");
    reveal_strlit("screensaver");
    reveal_strlit("screenlist");
    reveal_strlit("Y");
    reveal_strlit("y");
    reveal_strlit("N");
    reveal_strlit("n");
    assert("enabled"@.len() == 7 && "switchduration"@.len() == 14 && "screensaver"@.len() == 11
        && "screenlist"@.len() == 10);
    assert("Y"@[0] == 'Y' && "y"@[0] == 'y' && "N"@[0] == 'N' && "n"@[0] == 'n');
}

/// A line is a setting if it has an equals sign: what is before the first one is the key, what is
/// behind it the value, without the spaces around them and without quotes around the value. Empty
/// lines and comments change nothing.
pub proof fn law_line_of_the_settings(
    settings: OledSettings,
    raw: Seq<char>,
    left: Seq<char>,
    right: Seq<char>,
)
    ensures
        ({
            let bare = text::trimmed(raw);
            &&& bare.len() == 0 || bare[0] == '#' ==> with_line(settings, raw) == Ok::<
                OledSettings,
                OledProblem,
            >(settings)
            &&& bare.len() > 0 && bare[0] != '#' && !bare.contains('=') ==> with_line(settings, raw)
                == Err::<OledSettings, OledProblem>(OledProblem::MissingEquals)
            &&& bare.len() > 0 && bare[0] != '#' && bare == left + seq!['='] + right
                && !left.contains('=') ==> with_line(settings, raw) == with_setting(
                settings,
                text::trimmed(left),
                text::unquoted(text::trimmed(right)),
            )
        }),
{
    let bare = text::trimmed(raw);
    text::law_parted_at_first(bare, '=');
    if let Some((first, second)) = text::split_first(bare, '=') {
        let all = first + seq!['='] + second;
        assert(all[first.len() as int] == '=');
    }
    if bare == left + seq!['='] + right && !left.contains('=') {
        assert forall|i: int| 0 <= i < left.len() implies left[i] != '=' by {
            assert(left.contains(left[i]));
        }
        text::lemma_piece(left, '=', right);
    }
}

/// Lines count one after the other: those that come later change what the earlier ones gave, and
/// the first fault is told with the number of its line. Without lines the display is used, shows
/// the clock and the address, is not turned by itself and is switched off after two minutes.
pub proof fn law_settings_line_by_line(lines: Seq<Seq<char>>, line: Seq<char>)
    ensures
        read_lines(seq![]) == Ok::<OledSettings, (nat, OledProblem)>(
            OledSettings {
                enabled: true,
                switch_seconds: 0,
                screensaver_seconds: Some(120),
                pages: seq![OledPage::Clock, OledPage::Ip],
            },
        ),
        read_lines(lines) is Err ==> read_lines(lines.push(line)) == read_lines(lines),
        read_lines(lines) matches Ok(settings) ==> match with_line(settings, line) {
            Ok(after) => read_lines(lines.push(line)) == Ok::<OledSettings, (nat, OledProblem)>(
                after,
            ),
            Err(problem) => read_lines(lines.push(line)) == Err::<OledSettings, (nat, OledProblem)>(
                (lines.len() + 1, problem),
            ),
        },
{
    assert(lines.push(line).drop_last() =~= lines);
}

/// A change sets what it names and keeps the rest.
pub proof fn law_change_keeps_the_rest(settings: OledSettings, change: OledChange)
    ensures
        match changed(settings, change) {
            Ok(after) => {
                &&& after.enabled == (match change.enabled {
                    Some(enabled) => enabled,
                    None => settings.enabled,
                })
                &&& after.switch_seconds == (match change.switch_seconds {
                    Some(seconds) => seconds,
                    None => settings.switch_seconds,
                })
                &&& change.screensaver_seconds is None ==> after.screensaver_seconds
                    == settings.screensaver_seconds
                &&& change.screensaver_seconds == Some(0u64) ==> after.screensaver_seconds is None
                &&& change.screensaver_seconds matches Some(seconds) ==> (seconds > 0
                    ==> after.screensaver_seconds == Some(seconds))
                &&& change.pages is None ==> after.pages == settings.pages
                &&& change.pages matches Some(names) ==> after.pages.len() == names@.len()
                    && forall|i: int|
                    0 <= i < names@.len() ==> page_named((#[trigger] names@[i])@) == Some(
                        after.pages[i],
                    )
            },
            Err(name) => page_named(name) is None && (change.pages matches Some(names) && exists|
                i: int,
            |
                0 <= i < names@.len() && (#[trigger] names@[i])@ == name),
        },
{
    if let Some(names) = change.pages {
        let list = texts(names@);
        law_pages_by_their_names(list);
        match pages_named(list) {
            Ok(pages) => {
                assert forall|i: int| 0 <= i < names@.len() implies page_named(
                    (#[trigger] names@[i])@,
                ) == Some(pages[i]) by {
                    assert(list[i] == names@[i]@);
                }
            },
            Err(name) => {
                let i = choose|i: int|
                    0 <= i < list.len() && #[trigger] list[i] == name && page_named(name) is None;
                assert(names@[i]@ == name);
            },
        }
    }
}

/// A line at the end of a text counts behind what the text says, however long it is; a fault
/// before it stays the fault.
pub proof fn law_added_line_counts(input: Seq<char>, line: Seq<char>)
    requires
        input.len() > 0 ==> input.last() == '\n',
        line.len() > 0,
        !line.contains('\n'),
    ensures
        read_config(seq![]) == Ok::<OledSettings, (nat, OledProblem)>(default_settings()),
        read_config(input) is Err ==> read_config(input + line) == read_config(input),
        read_config(input) matches Ok(settings) ==> match with_line(settings, line) {
            Ok(after) => read_config(input + line) == Ok::<OledSettings, (nat, OledProblem)>(after),
            Err(problem) => read_config(input + line) matches Err(fault) && fault.1 == problem,
        },
{
    text::law_lines_join(input, line);
    text::law_lines_hold_no_line_feed(line);
    let lines = text::lines_of(input);
    assert(lines + seq![line] =~= lines.push(line));
    law_settings_line_by_line(lines, line);
}

} // verus!
