//! Shortcut files: the entry model and the parser that reads the text of one
//! file into entries.
//!
//! A shortcut file is a sequence of lines. A line in brackets opens a
//! section, a line `key=value` inside a section gives the section a field.
//! The primary section describes the application; sections named after the
//! actions that it lists describe further ways to start it.

use crate::text::{append, find_char, part, same, split_chars, to_chars, to_string, trim_chars};
use crate::text::{find, is_whitespace, join, optional_text, split, texts, trim, Separator};
use crate::text::{lemma_pieces_hold_no_separator, lemma_split_at_separator, lemma_split_of_join};
use crate::text::{lemma_split_without_separator, lemma_trim_of_trimmed};
use vstd::prelude::*;

verus! {

/// One selectable launcher item.
#[derive(Debug)]
pub struct DesktopEntry {
    /// Display and search key.
    pub name: String,
    /// Command line to run on activation, field codes removed.
    pub command: String,
    /// Icon identifier or path.
    pub icon: Option<String>,
    /// Subtitle.
    pub comment: Option<String>,
}

/// The mathematical value of a [`DesktopEntry`].
#[verifier::ext_equal]
pub struct EntryView {
    pub name: Seq<char>,
    pub command: Seq<char>,
    pub icon: Option<Seq<char>>,
    pub comment: Option<Seq<char>>,
}

impl EntryView {
    /// An entry can be shown and started: neither its name nor its command
    /// is empty.
    pub open spec fn well_formed(self) -> bool {
        self.name.len() > 0 && self.command.len() > 0
    }
}

impl View for DesktopEntry {
    type V = EntryView;

    open spec fn view(&self) -> EntryView {
        EntryView {
            name: self.name@,
            command: self.command@,
            icon: optional_text(self.icon),
            comment: optional_text(self.comment),
        }
    }
}

impl Clone for DesktopEntry {
    fn clone(&self) -> (copy: Self)
        ensures
            copy == *self,
    {
        DesktopEntry {
            name: self.name.clone(),
            command: self.command.clone(),
            icon: match &self.icon {
                Some(icon) => Some(icon.clone()),
                None => None,
            },
            comment: match &self.comment {
                Some(comment) => Some(comment.clone()),
                None => None,
            },
        }
    }
}

impl DesktopEntry {
    /// Decides [`EntryView::well_formed`].
    pub fn is_well_formed(&self) -> (ok: bool)
        ensures
            ok == self@.well_formed(),
    {
        !self.name.as_str().is_empty() && !self.command.as_str().is_empty()
    }
}

/// The values of a sequence of entries.
pub open spec fn entry_views(entries: Seq<DesktopEntry>) -> Seq<EntryView> {
    entries.map_values(|e: DesktopEntry| e@)
}

/// Whether every entry of a sequence is well-formed.
pub open spec fn all_well_formed(entries: Seq<EntryView>) -> bool {
    forall|i: int| 0 <= i < entries.len() ==> (#[trigger] entries[i]).well_formed()
}

/// What one line of a shortcut file says.
#[verifier::ext_equal]
pub enum Line {
    /// A section header; the label keeps its brackets.
    Header(Seq<char>),
    /// `key=value`.
    Field { key: Seq<char>, value: Seq<char> },
    /// Anything else: blank lines, comments, malformed lines.
    Other,
}

/// A header line starts with `[` and ends with `]`.
pub open spec fn is_header(line: Seq<char>) -> bool {
    line.len() > 0 && line.first() == '[' && line.last() == ']'
}

/// Reads one raw line. Surrounding whitespace does not count. A header is
/// recognised first; otherwise the first `=` parts key from value, and the
/// value may hold further `=`.
pub open spec fn read_line(raw: Seq<char>) -> Line {
    let line = trim(raw);
    if is_header(line) {
        Line::Header(line)
    } else {
        match find(line, '=') {
            Some(i) => Line::Field { key: line.take(i), value: line.skip(i + 1) },
            None => Line::Other,
        }
    }
}

/// The lines of a shortcut file, split at line feeds. A carriage return in
/// front of a line feed is whitespace at the end of its line, and a line
/// feed at the end of the file adds one empty line, which says nothing.
pub open spec fn read_lines(content: Seq<char>) -> Seq<Line> {
    split(content, Separator::Char('\n')).map_values(|raw: Seq<char>| read_line(raw))
}

/// The section that line `n` stands in: the label of the last header among
/// the lines before it, if there is one.
pub open spec fn section_of(lines: Seq<Line>, n: int) -> Option<Seq<char>>
    decreases n,
{
    if n <= 0 {
        None
    } else {
        match lines[n - 1] {
            Line::Header(label) => Some(label),
            _ => section_of(lines, n - 1),
        }
    }
}

/// Whether line `n` is a field named `key` that stands in `section`.
pub open spec fn defines(lines: Seq<Line>, n: int, section: Seq<char>, key: Seq<char>) -> bool {
    &&& lines[n] matches Line::Field { key: k, .. } && k =~= key
    &&& section_of(lines, n) matches Some(label) && label =~= section
}

/// The value of `key` in `section` as far as the first `n` lines tell: a
/// later field overrides an earlier one, and sections of one label are one
/// section.
pub open spec fn value_within(lines: Seq<Line>, section: Seq<char>, key: Seq<char>, n: int) -> Option<
    Seq<char>,
>
    decreases n,
{
    if n <= 0 {
        None
    } else if defines(lines, n - 1, section, key) {
        Some(lines[n - 1]->value)
    } else {
        value_within(lines, section, key, n - 1)
    }
}

/// The value of `key` in `section`, if the file gives it one.
pub open spec fn value_of(lines: Seq<Line>, section: Seq<char>, key: Seq<char>) -> Option<
    Seq<char>,
> {
    value_within(lines, section, key, lines.len() as int)
}

/// Whether some header carries the label `section`.
pub open spec fn has_section(lines: Seq<Line>, section: Seq<char>) -> bool {
    exists|n: int|
        0 <= n < lines.len() && (#[trigger] lines[n] matches Line::Header(label) && label
            =~= section)
}

/// Whether `item` is one of the values of a `;`-separated list, whitespace
/// around each value aside.
pub open spec fn lists(value: Seq<char>, item: Seq<char>) -> bool {
    let values = split(value, Separator::Char(';'));
    exists|i: int| 0 <= i < values.len() && trim(#[trigger] values[i]) =~= item
}

/// A field code: a token of a command line that starts with `%`, a
/// placeholder for what a launching environment would fill in.
pub open spec fn is_field_code(token: Seq<char>) -> bool {
    token.len() > 0 && token.first() == '%'
}

/// A token of a command line that stays: one that is not empty and no field
/// code.
pub open spec fn is_argument(token: Seq<char>) -> bool {
    token.len() > 0 && !is_field_code(token)
}

/// The tokens that stay, in order.
pub open spec fn arguments(tokens: Seq<Seq<char>>) -> Seq<Seq<char>>
    decreases tokens.len(),
{
    if tokens.len() == 0 {
        Seq::empty()
    } else if is_argument(tokens.last()) {
        arguments(tokens.drop_last()).push(tokens.last())
    } else {
        arguments(tokens.drop_last())
    }
}

/// A command line without its field codes: the whitespace-separated tokens
/// that do not start with `%`, joined by single spaces.
pub open spec fn cleaned_command(command: Seq<char>) -> Seq<char> {
    join(arguments(split(command, Separator::Whitespace)), seq![' '])
}

/// The label of the primary section.
pub open spec fn primary_section() -> Seq<char> {
    "[Desktop Entry]"@
}

/// The label of the section that describes the action `id`.
pub open spec fn action_section(id: Seq<char>) -> Seq<char> {
    "[Desktop Action "@ + id + "]"@
}

/// Whether the primary section keeps the shortcut out of the launcher: it is
/// shown only in KDE, or not displayed at all.
pub open spec fn is_excluded(lines: Seq<Line>) -> bool {
    ||| value_of(lines, primary_section(), "OnlyShowIn"@) matches Some(v) && lists(v, "KDE"@)
    ||| value_of(lines, primary_section(), "NoDisplay"@) matches Some(v) && lists(v, "true"@)
}

/// The entry of the primary section, if the section gives the application
/// a name that is not empty and a command that is not empty once cleaned.
pub open spec fn main_entry(lines: Seq<Line>) -> Option<EntryView> {
    match (
        value_of(lines, primary_section(), "Name"@),
        value_of(lines, primary_section(), "Exec"@),
    ) {
        (Some(name), Some(command)) if name.len() > 0 && cleaned_command(command).len() > 0 => Some(
            EntryView {
                name,
                command: cleaned_command(command),
                icon: value_of(lines, primary_section(), "Icon"@),
                comment: value_of(lines, primary_section(), "Comment"@),
            },
        ),
        _ => None,
    }
}

/// The entry of the action `id`, if `id` is not empty and its section gives
/// the action a name and a command that is not empty once cleaned. The
/// entry is named after the main entry and the action, falls back to the
/// main icon, and is described by the action's name.
pub open spec fn action_entry(lines: Seq<Line>, main: EntryView, id: Seq<char>) -> Option<
    EntryView,
> {
    let section = action_section(id);
    match (value_of(lines, section, "Name"@), value_of(lines, section, "Exec"@)) {
        (Some(name), Some(command)) if id.len() > 0 && cleaned_command(command).len() > 0 => Some(
            EntryView {
                name: main.name + " - "@ + name,
                command: cleaned_command(command),
                icon: match value_of(lines, section, "Icon"@) {
                    Some(icon) => Some(icon),
                    None => main.icon,
                },
                comment: Some(name),
            },
        ),
        _ => None,
    }
}

/// The entries of the actions that the primary section lists, in the order
/// of the list.
pub open spec fn action_entries(lines: Seq<Line>, main: EntryView) -> Seq<EntryView> {
    match value_of(lines, primary_section(), "Actions"@) {
        Some(list) => split(list, Separator::Char(';')).filter_map(
            |id: Seq<char>| action_entry(lines, main, id),
        ),
        None => Seq::empty(),
    }
}

/// The entries that a shortcut file with the given lines yields: none
/// without a primary section, none if that section excludes the shortcut or
/// gives no main entry, else the main entry followed by its actions.
pub open spec fn entries_of(lines: Seq<Line>) -> Seq<EntryView> {
    if !has_section(lines, primary_section()) || is_excluded(lines) {
        Seq::empty()
    } else {
        match main_entry(lines) {
            Some(main) => seq![main] + action_entries(lines, main),
            None => Seq::empty(),
        }
    }
}

/// The entries that the text of one shortcut file yields.
pub open spec fn parsed_entries(content: Seq<char>) -> Seq<EntryView> {
    entries_of(read_lines(content))
}

/// A line as the parser holds it.
enum ScannedLine {
    Header(Vec<char>),
    Field { key: Vec<char>, value: Vec<char> },
    Other,
}

impl View for ScannedLine {
    type V = Line;

    closed spec fn view(&self) -> Line {
        match self {
            ScannedLine::Header(label) => Line::Header(label@),
            ScannedLine::Field { key, value } => Line::Field { key: key@, value: value@ },
            ScannedLine::Other => Line::Other,
        }
    }
}

/// What scanned lines say.
spec fn line_views(lines: Seq<ScannedLine>) -> Seq<Line> {
    lines.map_values(|l: ScannedLine| l@)
}

/// The text of an optional value.
spec fn optional_chars(v: Option<&Vec<char>>) -> Option<Seq<char>> {
    match v {
        Some(v) => Some(v@),
        None => None,
    }
}

/// Computes [`read_line`].
fn scan_line(raw: &[char]) -> (line: ScannedLine)
    ensures
        line@ == read_line(raw@),
{
    let line = trim_chars(raw);
    let n = line.len();
    if n > 0 && line[0] == '[' && line[n - 1] == ']' {
        return ScannedLine::Header(line);
    }
    match find_char(&line, '=') {
        Some(i) => {
            proof {
                assert(line@.take(i as int) == line@.subrange(0, i as int));
                assert(line@.skip(i + 1) == line@.subrange(i + 1, n as int));
            }
            let key = part(&line, 0, i);
            let value = part(&line, i + 1, n);
            ScannedLine::Field { key, value }
        },
        None => ScannedLine::Other,
    }
}

/// Computes [`read_lines`].
fn scan_lines(content: &[char]) -> (lines: Vec<ScannedLine>)
    ensures
        line_views(lines@) == read_lines(content@),
{
    let raw = split_chars(content, Separator::Char('\n'));
    let mut lines: Vec<ScannedLine> = Vec::new();
    for i in 0..raw.len()
        invariant
            lines@.len() == i,
            forall|j: int| 0 <= j < i ==> (#[trigger] lines@[j])@ == read_line(raw@[j]@),
    {
        let line = scan_line(&raw[i]);
        lines.push(line);
    }
    proof {
        assert(line_views(lines@) =~= read_lines(content@));
    }
    lines
}

/// Computes [`value_of`] in one pass over the lines.
fn find_value<'a>(lines: &'a Vec<ScannedLine>, section: &[char], key: &str) -> (value: Option<
    &'a Vec<char>,
>)
    ensures
        optional_chars(value) == value_of(line_views(lines@), section@, key@),
{
    let wanted = to_chars(key);
    let mut found: Option<&Vec<char>> = None;
    let mut inside = false;
    for i in 0..lines.len()
        invariant
            wanted@ == key@,
            inside == (section_of(line_views(lines@), i as int) == Some(section@)),
            optional_chars(found) == value_within(line_views(lines@), section@, key@, i as int),
    {
        match &lines[i] {
            ScannedLine::Header(label) => {
                inside = same(label, section);
            },
            ScannedLine::Field { key: k, value } => {
                if inside && same(k, &wanted) {
                    found = Some(value);
                }
            },
            ScannedLine::Other => {},
        }
    }
    found
}

/// Decides [`has_section`].
fn contains_section(lines: &Vec<ScannedLine>, section: &[char]) -> (found: bool)
    ensures
        found == has_section(line_views(lines@), section@),
{
    for i in 0..lines.len()
        invariant
            forall|n: int|
                0 <= n < i ==> !(#[trigger] line_views(lines@)[n] matches Line::Header(label)
                    && label =~= section@),
    {
        if let ScannedLine::Header(label) = &lines[i] {
            if same(label, section) {
                assert(line_views(lines@)[i as int] matches Line::Header(label) && label
                    =~= section@);
                return true;
            }
        }
    }
    false
}

/// Decides [`lists`].
fn lists_item(value: &[char], item: &str) -> (found: bool)
    ensures
        found == lists(value@, item@),
{
    let wanted = to_chars(item);
    let values = split_chars(value, Separator::Char(';'));
    for i in 0..values.len()
        invariant
            wanted@ == item@,
            texts(values@) == split(value@, Separator::Char(';')),
            forall|j: int| 0 <= j < i ==> !(trim(#[trigger] texts(values@)[j]) =~= item@),
    {
        let trimmed = trim_chars(&values[i]);
        if same(&trimmed, &wanted) {
            assert(trim(texts(values@)[i as int]) =~= item@);
            return true;
        }
    }
    false
}

/// Decides [`is_excluded`].
fn excludes(lines: &Vec<ScannedLine>, primary: &[char]) -> (excluded: bool)
    requires
        primary@ == primary_section(),
    ensures
        excluded == is_excluded(line_views(lines@)),
{
    let only_kde = match find_value(lines, primary, "OnlyShowIn") {
        Some(value) => lists_item(value, "KDE"),
        None => false,
    };
    only_kde || match find_value(lines, primary, "NoDisplay") {
        Some(value) => lists_item(value, "true"),
        None => false,
    }
}

/// Computes [`cleaned_command`].
fn clean_chars(command: &[char]) -> (cleaned: Vec<char>)
    ensures
        cleaned@ == cleaned_command(command@),
{
    let tokens = split_chars(command, Separator::Whitespace);
    let mut cleaned: Vec<char> = Vec::new();
    let mut first = true;
    for i in 0..tokens.len()
        invariant
            first == (arguments(texts(tokens@).take(i as int)).len() == 0),
            cleaned@ == join(arguments(texts(tokens@).take(i as int)), seq![' ']),
    {
        proof {
            let earlier = texts(tokens@).take(i as int);
            let token = texts(tokens@)[i as int];
            assert(texts(tokens@).take(i + 1).drop_last() == earlier);
            if is_argument(token) {
                assert(arguments(earlier).push(token).drop_last() == arguments(earlier));
            }
        }
        let token = &tokens[i];
        if token.len() > 0 && token[0] != '%' {
            if !first {
                cleaned.push(' ');
            }
            append(&mut cleaned, token);
            first = false;
        }
    }
    proof {
        assert(texts(tokens@).take(tokens@.len() as int) == texts(tokens@));
    }
    cleaned
}

/// Builds the string of an optional value.
fn optional_string(chars: Option<&Vec<char>>) -> (s: Option<String>)
    ensures
        optional_text(s) == optional_chars(chars),
{
    match chars {
        Some(chars) => Some(to_string(chars)),
        None => None,
    }
}

/// Computes [`main_entry`].
fn read_main(lines: &Vec<ScannedLine>, primary: &[char]) -> (main: Option<DesktopEntry>)
    requires
        primary@ == primary_section(),
    ensures
        match main {
            Some(main) => main_entry(line_views(lines@)) == Some(main@),
            None => main_entry(line_views(lines@)) is None,
        },
{
    let name = find_value(lines, primary, "Name");
    let command = find_value(lines, primary, "Exec");
    match (name, command) {
        (Some(name), Some(command)) => {
            let cleaned = clean_chars(command);
            if name.len() == 0 || cleaned.len() == 0 {
                return None;
            }
            Some(
                DesktopEntry {
                    name: to_string(name),
                    command: to_string(&cleaned),
                    icon: optional_string(find_value(lines, primary, "Icon")),
                    comment: optional_string(find_value(lines, primary, "Comment")),
                },
            )
        },
        _ => None,
    }
}

/// Computes [`action_entry`].
fn read_action(lines: &Vec<ScannedLine>, main: &DesktopEntry, id: &[char]) -> (action: Option<
    DesktopEntry,
>)
    ensures
        match action {
            Some(action) => action_entry(line_views(lines@), main@, id@) == Some(action@),
            None => action_entry(line_views(lines@), main@, id@) is None,
        },
{
    if id.len() == 0 {
        return None;
    }
    let mut section = to_chars("[Desktop Action ");
    append(&mut section, id);
    section.push(']');
    proof {
        reveal_strlit("]");
        assert(section@ == action_section(id@));
    }
    let name = find_value(lines, &section, "Name");
    let command = find_value(lines, &section, "Exec");
    match (name, command) {
        (Some(name), Some(command)) => {
            let cleaned = clean_chars(command);
            if cleaned.len() == 0 {
                return None;
            }
            let mut title = to_chars(main.name.as_str());
            append(&mut title, &to_chars(" - "));
            append(&mut title, name);
            let icon = match find_value(lines, &section, "Icon") {
                Some(icon) => Some(to_string(icon)),
                None => match &main.icon {
                    Some(icon) => Some(icon.clone()),
                    None => None,
                },
            };
            Some(
                DesktopEntry {
                    name: to_string(&title),
                    command: to_string(&cleaned),
                    icon,
                    comment: Some(to_string(name)),
                },
            )
        },
        _ => None,
    }
}

/// Removes the field codes from a command line: splits it at runs of
/// whitespace, drops every token that starts with `%`, and joins the rest
/// with single spaces.
pub fn clean_exec(exec_str: &str) -> (cleaned: String)
    ensures
        cleaned@ == cleaned_command(exec_str@),
{
    let chars = to_chars(exec_str);
    let cleaned = clean_chars(&chars);
    to_string(&cleaned)
}

/// Reads the text of one shortcut file into entries: the main entry, then
/// one entry for each listed action that is fully described. A file that
/// does not qualify yields nothing: one without primary section, one that is
/// shown only in KDE or not displayed, one without a name or a command.
pub fn parse_desktop_entry(content: &str) -> (entries: Vec<DesktopEntry>)
    ensures
        entry_views(entries@) == parsed_entries(content@),
        entries@.len() == parsed_entries(content@).len(),
        forall|i: int|
            0 <= i < entries@.len() ==> (#[trigger] entries@[i])@ == parsed_entries(content@)[i],
        forall|i: int| 0 <= i < entries@.len() ==> (#[trigger] entries@[i])@.well_formed(),
        !has_section(read_lines(content@), primary_section()) ==> entries@.len() == 0,
        is_excluded(read_lines(content@)) ==> entries@.len() == 0,
{
    let chars = to_chars(content);
    let lines = scan_lines(&chars);
    let primary = to_chars("[Desktop Entry]");
    let mut entries: Vec<DesktopEntry> = Vec::new();
    proof {
        lemma_entries_are_well_formed(line_views(lines@));
    }
    if !contains_section(&lines, &primary) || excludes(&lines, &primary) {
        assert(entry_views(entries@) =~= parsed_entries(content@));
        return entries;
    }
    let main = match read_main(&lines, &primary) {
        Some(main) => main,
        None => {
            assert(entry_views(entries@) =~= parsed_entries(content@));
            return entries;
        },
    };
    let ghost first = main@;
    let ghost reader = |id: Seq<char>| action_entry(line_views(lines@), first, id);
    let mut actions: Vec<DesktopEntry> = Vec::new();
    match find_value(&lines, &primary, "Actions") {
        Some(list) => {
            let ids = split_chars(list, Separator::Char(';'));
            for i in 0..ids.len()
                invariant
                    first == main@,
                    reader == |id: Seq<char>| action_entry(line_views(lines@), first, id),
                    entry_views(actions@) == texts(ids@).take(i as int).filter_map(reader),
            {
                proof {
                    texts(ids@).lemma_filter_map_take_succ(reader, i as int);
                }
                match read_action(&lines, &main, &ids[i]) {
                    Some(action) => {
                        actions.push(action);
                    },
                    None => {},
                }
            }
            proof {
                assert(texts(ids@).take(ids@.len() as int) == texts(ids@));
            }
        },
        None => {},
    }
    entries.push(main);
    entries.append(&mut actions);
    assert(entry_views(entries@) =~= parsed_entries(content@));
    assert forall|i: int| 0 <= i < entries@.len() implies (#[trigger] entries@[i])@
        == parsed_entries(content@)[i] by {
        assert(entry_views(entries@)[i] == entries@[i]@);
    }
    entries
}

/// Every entry that a shortcut file yields is well-formed: an entry without
/// a name or without a command is never produced.
pub proof fn lemma_entries_are_well_formed(lines: Seq<Line>)
    ensures
        all_well_formed(entries_of(lines)),
{
    let entries = entries_of(lines);
    assert forall|i: int| 0 <= i < entries.len() implies (#[trigger] entries[i]).well_formed() by {
        let main = main_entry(lines)->0;
        if i > 0 {
            let reader = |id: Seq<char>| action_entry(lines, main, id);
            let ids = split(value_of(lines, primary_section(), "Actions"@)->0, Separator::Char(';'));
            assert(ids.filter_map(reader)[i - 1] == entries[i]);
            ids.lemma_filter_map_contains(reader, entries[i]);
        }
    }
}

/// The tokens that stay are tokens, and each of them is an argument.
proof fn lemma_arguments_are_kept_tokens(tokens: Seq<Seq<char>>)
    ensures
        forall|i: int|
            0 <= i < arguments(tokens).len() ==> is_argument(#[trigger] arguments(tokens)[i])
                && tokens.contains(arguments(tokens)[i]),
    decreases tokens.len(),
{
    if tokens.len() > 0 {
        let front = tokens.drop_last();
        lemma_arguments_are_kept_tokens(front);
        assert forall|i: int| 0 <= i < arguments(tokens).len() implies is_argument(
            #[trigger] arguments(tokens)[i],
        ) && tokens.contains(arguments(tokens)[i]) by {
            if i < arguments(front).len() {
                let token = arguments(front)[i];
                assert(front.contains(token));
                let k = choose|k: int| 0 <= k < front.len() && front[k] == token;
                assert(tokens[k] == token);
            } else {
                assert(tokens[tokens.len() - 1] == tokens.last());
            }
        }
    }
}

/// Where every token is an argument, all tokens stay.
proof fn lemma_arguments_all_stay(tokens: Seq<Seq<char>>)
    requires
        forall|i: int| 0 <= i < tokens.len() ==> is_argument(#[trigger] tokens[i]),
    ensures
        arguments(tokens) == tokens,
    decreases tokens.len(),
{
    if tokens.len() > 0 {
        let front = tokens.drop_last();
        assert forall|i: int| 0 <= i < front.len() implies is_argument(#[trigger] front[i]) by {
            assert(is_argument(tokens[i]));
        }
        lemma_arguments_all_stay(front);
        assert(is_argument(tokens[tokens.len() - 1]));
        assert(front.push(tokens.last()) == tokens);
    } else {
        assert(tokens == Seq::<Seq<char>>::empty());
    }
}

/// The tokens of a cleaned command are the arguments of the command it was
/// cleaned from; a cleaned command without arguments is empty.
pub proof fn lemma_tokens_of_cleaned_command(command: Seq<char>)
    ensures
        arguments(split(command, Separator::Whitespace)).len() > 0 ==> split(
            cleaned_command(command),
            Separator::Whitespace,
        ) == arguments(split(command, Separator::Whitespace)),
        arguments(split(command, Separator::Whitespace)).len() == 0 ==> cleaned_command(command)
            == Seq::<char>::empty(),
{
    let sep = Separator::Whitespace;
    let tokens = split(command, sep);
    let kept = arguments(tokens);
    if kept.len() > 0 {
        lemma_arguments_are_kept_tokens(tokens);
        lemma_pieces_hold_no_separator(command, sep);
        assert forall|i: int, j: int|
            0 <= i < kept.len() && 0 <= j < kept[i].len() implies !sep.matches(
            #[trigger] kept[i][j],
        ) by {
            assert(tokens.contains(kept[i]));
            let k = choose|k: int| 0 <= k < tokens.len() && tokens[k] == kept[i];
            assert(!sep.matches(tokens[k][j]));
        }
        lemma_split_of_join(kept, ' ', sep);
    }
}

/// A cleaned command holds no field code: none of its whitespace-separated
/// tokens starts with `%`.
pub proof fn lemma_cleaned_command_holds_no_field_code(command: Seq<char>)
    ensures
        forall|i: int|
            0 <= i < split(cleaned_command(command), Separator::Whitespace).len()
                ==> !is_field_code(
                #[trigger] split(cleaned_command(command), Separator::Whitespace)[i],
            ),
{
    let sep = Separator::Whitespace;
    lemma_tokens_of_cleaned_command(command);
    lemma_arguments_are_kept_tokens(split(command, sep));
    if arguments(split(command, sep)).len() == 0 {
        assert(split(Seq::<char>::empty(), sep) == seq![Seq::<char>::empty()]);
    }
}

/// Cleaning a cleaned command changes nothing.
pub proof fn lemma_cleaning_is_idempotent(command: Seq<char>)
    ensures
        cleaned_command(cleaned_command(command)) == cleaned_command(command),
{
    let sep = Separator::Whitespace;
    let kept = arguments(split(command, sep));
    lemma_tokens_of_cleaned_command(command);
    if kept.len() > 0 {
        lemma_arguments_are_kept_tokens(split(command, sep));
        lemma_arguments_all_stay(kept);
    } else {
        let empty = Seq::<char>::empty();
        assert(split(empty, sep) == seq![empty]);
        assert(seq![empty].drop_last() == Seq::<Seq<char>>::empty());
        assert(arguments(Seq::<Seq<char>>::empty()) == Seq::<Seq<char>>::empty());
        assert(arguments(seq![empty]) == Seq::<Seq<char>>::empty());
    }
}

/// A value without `;` and without whitespace at its ends is a list of
/// itself alone.
pub proof fn lemma_lists_single(value: Seq<char>)
    requires
        forall|i: int| 0 <= i < value.len() ==> #[trigger] value[i] != ';',
        value.len() > 0 ==> !is_whitespace(value.first()) && !is_whitespace(value.last()),
    ensures
        lists(value, value),
{
    lemma_split_without_separator(value, Separator::Char(';'));
    lemma_trim_of_trimmed(value);
    assert(trim(split(value, Separator::Char(';'))[0]) == value);
}

/// A list made of two lists with a `;` between them names what either of
/// them names.
pub proof fn lemma_lists_either(left: Seq<char>, right: Seq<char>, item: Seq<char>)
    ensures
        lists(left.push(';') + right, item) <==> lists(left, item) || lists(right, item),
{
    let sep = Separator::Char(';');
    lemma_split_at_separator(left, ';', right, sep);
    let l = split(left, sep);
    let r = split(right, sep);
    let both = split(left.push(';') + right, sep);
    if lists(left, item) {
        let i = choose|i: int| 0 <= i < l.len() && trim(#[trigger] l[i]) == item;
        assert(trim(both[i]) == item);
    }
    if lists(right, item) {
        let i = choose|i: int| 0 <= i < r.len() && trim(#[trigger] r[i]) == item;
        assert(trim(both[l.len() + i]) == item);
    }
    if lists(left.push(';') + right, item) {
        let i = choose|i: int| 0 <= i < both.len() && trim(#[trigger] both[i]) == item;
        if i < l.len() {
            assert(trim(l[i]) == item);
        } else {
            assert(trim(r[i - l.len()]) == item);
        }
    }
}

/// A shortcut file without a primary section yields no entries.
pub proof fn lemma_no_primary_section(content: Seq<char>)
    requires
        !has_section(read_lines(content), primary_section()),
    ensures
        parsed_entries(content) == Seq::<EntryView>::empty(),
{
}

/// A shortcut file whose primary section lists `KDE` under `OnlyShowIn`
/// yields no entries; `KDE` and `Foo;KDE;Bar` are such lists.
pub proof fn lemma_shown_only_in_kde(content: Seq<char>)
    requires
        value_of(read_lines(content), primary_section(), "OnlyShowIn"@) matches Some(v) && (lists(
            v,
            "KDE"@,
        ) || v == "KDE"@ || v == "Foo;KDE;Bar"@),
    ensures
        parsed_entries(content) == Seq::<EntryView>::empty(),
{
    reveal_strlit("KDE");
    reveal_strlit("Foo");
    reveal_strlit("Bar");
    reveal_strlit("Foo;KDE;Bar");
    lemma_lists_single("KDE"@);
    lemma_lists_either("KDE"@, "Bar"@, "KDE"@);
    lemma_lists_either("Foo"@, "KDE"@.push(';') + "Bar"@, "KDE"@);
    assert("Foo;KDE;Bar"@ == "Foo"@.push(';') + ("KDE"@.push(';') + "Bar"@));
}

/// A shortcut file whose primary section lists `true` under `NoDisplay`
/// yields no entries; `true` alone is such a list.
pub proof fn lemma_not_displayed(content: Seq<char>)
    requires
        value_of(read_lines(content), primary_section(), "NoDisplay"@) matches Some(v) && (lists(
            v,
            "true"@,
        ) || v == "true"@),
    ensures
        parsed_entries(content) == Seq::<EntryView>::empty(),
{
    reveal_strlit("true");
    lemma_lists_single("true"@);
}

} // verus!
