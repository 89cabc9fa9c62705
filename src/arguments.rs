use unicode_segmentation::UnicodeSegmentation;
use vstd::prelude::*;
use vstd::string::{StrSliceExecFns, StringExecFns};

verus! {

/// Whether `s` is one or more ASCII digits.
pub open spec fn all_digits(s: Seq<char>) -> bool {
    s.len() > 0 && forall|i: int| 0 <= i < s.len() ==> '0' <= #[trigger] s[i] <= '9'
}

/// The number that the decimal digits `s` write.
pub open spec fn digits_value(s: Seq<char>) -> int
    decreases s.len(),
{
    if s.len() == 0 {
        0
    } else {
        digits_value(s.drop_last()) * 10 + (s.last() as int - '0' as int)
    }
}

/// The integer that `s` writes in decimal, with an optional leading `+` or `-`.
pub open spec fn decimal_value(s: Seq<char>) -> Option<int> {
    if s.len() > 0 && s[0] == '-' && all_digits(s.drop_first()) {
        Some(-digits_value(s.drop_first()))
    } else if s.len() > 0 && s[0] == '+' && all_digits(s.drop_first()) {
        Some(digits_value(s.drop_first()))
    } else if all_digits(s) {
        Some(digits_value(s))
    } else {
        None
    }
}

/// The integer that `s` writes, where it is one that an `i64` holds.
pub open spec fn parsed_i64(s: Seq<char>) -> Option<i64> {
    match decimal_value(s) {
        Some(v) => if i64::MIN <= v <= i64::MAX {
            Some(v as i64)
        } else {
            None
        },
        None => None,
    }
}

/// Relies on `<i64 as FromStr>::from_str`, which std documents as accepting an
/// optional `+` or `-` followed by one or more ASCII digits, and failing on
/// anything else or on a value out of range.
#[verifier::external_body]
fn parse_i64(s: &str) -> (r: Option<i64>)
    ensures
        r == parsed_i64(s@),
{
    s.parse::<i64>().ok()
}

/// What follows the last `.` of `s`, or all of `s` where it has none.
pub open spec fn after_last_dot(s: Seq<char>) -> Seq<char>
    decreases s.len(),
{
    if s.len() == 0 {
        s
    } else if s.last() == '.' {
        seq![]
    } else {
        after_last_dot(s.drop_last()).push(s.last())
    }
}

proof fn lemma_after_last_dot(s: Seq<char>, j: int)
    requires
        0 <= j <= s.len(),
        j == 0 || s[j - 1] == '.',
        forall|m: int| j <= m < s.len() ==> s[m] != '.',
    ensures
        after_last_dot(s) == s.subrange(j, s.len() as int),
    decreases s.len(),
{
    if s.len() == j {
        assert(s.subrange(j, j) =~= Seq::<char>::empty());
    } else {
        let t = s.drop_last();
        lemma_after_last_dot(t, j);
        assert(s.subrange(j, s.len() as int) =~= t.subrange(j, t.len() as int).push(s.last()));
    }
}

/// What follows the last `.` of `s`.
fn last_segment(s: &str) -> (r: &str)
    ensures
        r@ == after_last_dot(s@),
{
    let n = s.unicode_len();
    let mut j: usize = n;
    while j > 0
        invariant
            j <= n,
            n == s@.len(),
            forall|m: int| j <= m < n ==> s@[m] != '.',
        ensures
            j == 0 || s@[j - 1] == '.',
            forall|m: int| j <= m < n ==> s@[m] != '.',
        decreases j,
    {
        if s.get_char(j - 1) == '.' {
            break;
        }
        j -= 1;
    }
    proof {
        lemma_after_last_dot(s@, j as int);
    }
    s.substring_char(j, n)
}

/// The numbers that the ids stand for, each written either as a number or as
/// a dotted path such as `2.3.1`, whose last part is the number.
///
/// Fails on a missing list, or on the first id whose last part is no number.
pub fn parse_ids(ids: Option<&Vec<String>>) -> (r: Result<Vec<i64>, String>)
    ensures
        match ids {
            None => r matches Err(msg) && msg@ == "No task ids provided"@,
            Some(list) => {
                let v = list@;
                &&& r is Ok <==> forall|k: int|
                    0 <= k < v.len() ==> parsed_i64(after_last_dot(#[trigger] v[k]@)) is Some
                &&& r is Ok ==> r->Ok_0@.len() == v.len() && forall|k: int|
                    0 <= k < v.len() ==> Some(#[trigger] r->Ok_0@[k]) == parsed_i64(
                        after_last_dot(v[k]@),
                    )
                &&& r is Err ==> exists|k: int|
                    0 <= k < v.len() && parsed_i64(after_last_dot(#[trigger] v[k]@)) is None
                        && r->Err_0@ == "Invalid task id: "@ + v[k]@ && forall|m: int|
                        0 <= m < k ==> parsed_i64(after_last_dot(#[trigger] v[m]@)) is Some
            },
        },
{
    match ids {
        None => {
            let mut msg = String::new();
            msg.append("No task ids provided");
            assert(msg@ =~= "No task ids provided"@);
            Err(msg)
        },
        Some(list) => {
            let mut out: Vec<i64> = Vec::new();
            let mut k: usize = 0;
            while k < list.len()
                invariant
                    ids == Some(list),
                    k <= list.len(),
                    out@.len() == k,
                    forall|m: int|
                        0 <= m < k ==> Some(#[trigger] out@[m]) == parsed_i64(
                            after_last_dot(list@[m]@),
                        ),
                decreases list.len() - k,
            {
                let text = &list[k];
                match parse_i64(last_segment(text.as_str())) {
                    Some(v) => out.push(v),
                    None => {
                        let mut msg = String::new();
                        msg.append("Invalid task id: ");
                        msg.append(text.as_str());
                        assert(msg@ =~= "Invalid task id: "@ + list@[k as int]@) by {
                            reveal_strlit("");
                        }
                        assert(parsed_i64(after_last_dot(list@[k as int]@)) is None);
                        assert forall|m: int| 0 <= m < k implies parsed_i64(
                            after_last_dot(#[trigger] list@[m]@),
                        ) is Some by {
                            assert(Some(out@[m]) == parsed_i64(after_last_dot(list@[m]@)));
                        }
                        return Err(msg);
                    },
                }
                k += 1;
            }
            assert forall|m: int| 0 <= m < list@.len() implies parsed_i64(
                after_last_dot(#[trigger] list@[m]@),
            ) is Some by {
                assert(Some(out@[m]) == parsed_i64(after_last_dot(list@[m]@)));
            }
            Ok(out)
        },
    }
}

/// The extended grapheme clusters of `s`, in order, as Unicode's text
/// segmentation rules split it.
pub uninterp spec fn grapheme_split(s: Seq<char>) -> Seq<Seq<char>>;

/// Relies on unicode-segmentation's `UnicodeSegmentation::graphemes` with
/// extended clusters: the clusters depend on the text alone.
#[verifier::external_body]
fn graphemes_of(s: &str) -> (r: Vec<String>)
    ensures
        texts(r@) == grapheme_split(s@),
{
    s.graphemes(true).map(|g| g.to_owned()).collect()
}

/// The texts of a sequence of strings.
pub open spec fn texts(v: Seq<String>) -> Seq<Seq<char>> {
    v.map_values(|s: String| s@)
}

/// A command line taken apart: the options that were given values, the
/// options given without one, the words that stand before any option, and
/// the name the program was called by. Options keep the order in which each
/// was first met.
pub struct Arguments {
    pub args: Vec<(String, Vec<String>)>,
    pub flags: Vec<String>,
    pub subcommand: Vec<String>,
    pub command: String,
}

/// An option's name and values as texts.
pub type EntryView = (Seq<char>, Seq<Seq<char>>);

/// What a command line holds, as texts.
pub struct ArgumentsView {
    pub args: Seq<EntryView>,
    pub flags: Seq<Seq<char>>,
    pub subcommand: Seq<Seq<char>>,
    pub command: Seq<char>,
}

/// The texts of option entries.
pub open spec fn entry_views(v: Seq<(String, Vec<String>)>) -> Seq<EntryView> {
    v.map_values(|e: (String, Vec<String>)| (e.0@, texts(e.1@)))
}

impl View for Arguments {
    type V = ArgumentsView;

    open spec fn view(&self) -> ArgumentsView {
        ArgumentsView {
            args: entry_views(self.args@),
            flags: texts(self.flags@),
            subcommand: texts(self.subcommand@),
            command: self.command@,
        }
    }
}

/// Why a command line cannot be taken apart.
#[derive(Debug, Clone, Copy, PartialEq, Eq, Structural)]
pub enum ArgumentsError {
    /// The list is empty, so it lacks even the program's name.
    MissingCommand,
}

impl ArgumentsError {
    /// A sentence that says what went wrong.
    pub fn message(&self) -> (r: &'static str)
        ensures
            r@ == "Empty arguments vectors are unparseable as the first item in the vector must always be the command name"@,
    {
        "Empty arguments vectors are unparseable as the first item in the vector must always be the command name"
    }
}

/// Where the reading of a command line stands between two words.
pub struct ParseState {
    /// Each option met so far with the values it had when last left.
    pub entries: Seq<EntryView>,
    /// Options switched off with `--no-`.
    pub removed: Seq<Seq<char>>,
    pub subcommand: Seq<Seq<char>>,
    /// The option that takes the words that follow, if any.
    pub current: Option<Seq<char>>,
    /// The values that the current option has gathered.
    pub values: Seq<Seq<char>>,
}

/// The first index of an entry named `name`.
pub open spec fn find_entry(entries: Seq<EntryView>, name: Seq<char>) -> Option<int>
    decreases entries.len(),
{
    if entries.len() == 0 {
        None
    } else {
        match find_entry(entries.drop_last(), name) {
            Some(i) => Some(i),
            None => if entries.last().0 == name {
                Some(entries.len() - 1)
            } else {
                None
            },
        }
    }
}

/// `entries` with `name` set to `values`: in place where it is there, else at the end.
pub open spec fn set_entry(entries: Seq<EntryView>, name: Seq<char>, values: Seq<Seq<char>>) -> Seq<
    EntryView,
> {
    match find_entry(entries, name) {
        Some(i) => entries.update(i, (name, values)),
        None => entries.push((name, values)),
    }
}

/// The values recorded for `name`, or none.
pub open spec fn recorded_values(entries: Seq<EntryView>, name: Seq<char>) -> Seq<Seq<char>> {
    match find_entry(entries, name) {
        Some(i) => entries[i].1,
        None => seq![],
    }
}

/// The entries once the current option has put down its values.
pub open spec fn settled(st: ParseState) -> Seq<EntryView> {
    match st.current {
        Some(name) => set_entry(st.entries, name, st.values),
        None => st.entries,
    }
}

/// The state after moving on to the option `name`, which takes up the values
/// it had.
pub open spec fn switch_to(st: ParseState, name: Seq<char>) -> ParseState {
    let entries = settled(st);
    ParseState {
        entries,
        current: Some(name),
        values: recorded_values(entries, name),
        ..st
    }
}

/// The state after each of the one-letter options `letters` in turn.
pub open spec fn switch_through(st: ParseState, letters: Seq<Seq<char>>) -> ParseState
    decreases letters.len(),
{
    if letters.len() == 0 {
        st
    } else {
        switch_to(switch_through(st, letters.drop_last()), letters.last())
    }
}

/// Whether `s` begins with `p`.
pub open spec fn begins_with(s: Seq<char>, p: Seq<char>) -> bool {
    p.len() <= s.len() && s.subrange(0, p.len() as int) == p
}

/// The state after the word `w`, whose graphemes after its leading `-` are
/// `letters`: `--no-name` switches `name` off, `--name` moves on to the option
/// `name`, `-abc` to each of the one-letter options `a`, `b`, `c`, and any
/// other word is a value of the current option or, where there is none, a
/// word of the subcommand.
pub open spec fn step(st: ParseState, w: Seq<char>, letters: Seq<Seq<char>>) -> ParseState {
    if begins_with(w, "--"@) {
        if begins_with(w, "--no-"@) {
            ParseState {
                entries: settled(st),
                removed: st.removed.push(w.subrange(5, w.len() as int)),
                current: None,
                ..st
            }
        } else {
            switch_to(st, w.subrange(2, w.len() as int))
        }
    } else if begins_with(w, "-"@) {
        switch_through(st, letters)
    } else if st.current is Some {
        ParseState { values: st.values.push(w), ..st }
    } else {
        ParseState { subcommand: st.subcommand.push(w), ..st }
    }
}

/// The state after the words `ws`, from nothing read; `ls[k]` are the
/// graphemes of `ws[k]` after its leading `-`.
pub open spec fn read_words(ws: Seq<Seq<char>>, ls: Seq<Seq<Seq<char>>>) -> ParseState
    decreases ws.len(),
{
    if ws.len() == 0 {
        ParseState {
            entries: seq![],
            removed: seq![],
            subcommand: seq![],
            current: None,
            values: seq![],
        }
    } else {
        step(read_words(ws.drop_last(), ls.drop_last()), ws.last(), ls.last())
    }
}

/// Whether `w` is a run of one-letter options, such as `-abc`.
pub open spec fn is_short_run(w: Seq<char>) -> bool {
    begins_with(w, "-"@) && !begins_with(w, "--"@)
}

/// The graphemes of each word that is a run of one-letter options, after its
/// `-`; nothing for other words.
pub open spec fn short_letters(words: Seq<Seq<char>>) -> Seq<Seq<Seq<char>>> {
    Seq::new(
        words.len(),
        |k: int|
            if is_short_run(words[k]) {
                grapheme_split(words[k].subrange(1, words[k].len() as int))
            } else {
                seq![]
            },
    )
}

/// The entries, in order, that were not switched off and whose values are
/// empty (`want_empty`) or not.
pub open spec fn kept_entries(entries: Seq<EntryView>, removed: Seq<Seq<char>>, want_empty: bool) -> Seq<
    EntryView,
>
    decreases entries.len(),
{
    if entries.len() == 0 {
        seq![]
    } else {
        let before = kept_entries(entries.drop_last(), removed, want_empty);
        let e = entries.last();
        if !removed.contains(e.0) && (e.1.len() == 0) == want_empty {
            before.push(e)
        } else {
            before
        }
    }
}

/// The command line `words` taken apart, where `ls[k]` are the graphemes of
/// `words[k]` after its leading `-`; the first word is the program's name.
pub open spec fn parsed_with(words: Seq<Seq<char>>, ls: Seq<Seq<Seq<char>>>) -> ArgumentsView {
    let st = read_words(words.drop_first(), ls.drop_first());
    let entries = settled(st);
    ArgumentsView {
        args: kept_entries(entries, st.removed, false),
        flags: kept_entries(entries, st.removed, true).map_values(|e: EntryView| e.0),
        subcommand: st.subcommand,
        command: words[0],
    }
}

/// The command line `words` taken apart; the first word is the program's name.
pub open spec fn parsed_arguments(words: Seq<Seq<char>>) -> ArgumentsView {
    parsed_with(words, short_letters(words))
}

/// The texts of lists of strings.
pub open spec fn text_lists(v: Seq<Vec<String>>) -> Seq<Seq<Seq<char>>> {
    v.map_values(|l: Vec<String>| texts(l@))
}

/// No two entries share a name.
pub open spec fn names_unique(entries: Seq<EntryView>) -> bool {
    forall|a: int, b: int|
        0 <= a < b < entries.len() ==> (#[trigger] entries[a]).0 != (#[trigger] entries[b]).0
}

impl ArgumentsView {
    /// Each option and each flag is named once, and no name is both.
    pub open spec fn wf(&self) -> bool {
        &&& names_unique(self.args)
        &&& forall|a: int, b: int|
            0 <= a < b < self.flags.len() ==> #[trigger] self.flags[a] != #[trigger] self.flags[b]
        &&& forall|a: int, b: int|
            0 <= a < self.args.len() && 0 <= b < self.flags.len() ==> (#[trigger] self.args[a]).0
                != #[trigger] self.flags[b]
    }
}

proof fn lemma_find_entry(entries: Seq<EntryView>, name: Seq<char>)
    ensures
        find_entry(entries, name) is None ==> forall|i: int|
            0 <= i < entries.len() ==> (#[trigger] entries[i]).0 != name,
        find_entry(entries, name) is Some ==> 0 <= find_entry(entries, name)->0 < entries.len()
            && entries[find_entry(entries, name)->0].0 == name,
    decreases entries.len(),
{
    if entries.len() > 0 {
        lemma_find_entry(entries.drop_last(), name);
        assert forall|i: int| 0 <= i < entries.len() - 1 implies entries[i] == entries.drop_last()[i] by {}
    }
}

proof fn lemma_set_entry_unique(entries: Seq<EntryView>, name: Seq<char>, values: Seq<Seq<char>>)
    requires
        names_unique(entries),
    ensures
        names_unique(set_entry(entries, name, values)),
{
    lemma_find_entry(entries, name);
    let r = set_entry(entries, name, values);
    match find_entry(entries, name) {
        Some(i) => {
            assert forall|a: int, b: int| 0 <= a < b < r.len() implies (#[trigger] r[a]).0 != (
            #[trigger] r[b]).0 by {
                if a != i && b != i {
                    assert(r[a] == entries[a] && r[b] == entries[b]);
                } else if a == i {
                    assert(r[b] == entries[b]);
                    assert(entries[a].0 != entries[b].0);
                } else {
                    assert(r[a] == entries[a]);
                    assert(entries[a].0 != entries[b].0);
                }
            }
        },
        None => {
            assert forall|a: int, b: int| 0 <= a < b < r.len() implies (#[trigger] r[a]).0 != (
            #[trigger] r[b]).0 by {
                assert(r[a] == entries[a]);
                if b < entries.len() {
                    assert(r[b] == entries[b]);
                }
            }
        },
    }
}

proof fn lemma_switch_through_unique(st: ParseState, letters: Seq<Seq<char>>)
    requires
        names_unique(st.entries),
    ensures
        names_unique(switch_through(st, letters).entries),
    decreases letters.len(),
{
    if letters.len() > 0 {
        let before = switch_through(st, letters.drop_last());
        lemma_switch_through_unique(st, letters.drop_last());
        if before.current is Some {
            lemma_set_entry_unique(before.entries, before.current->0, before.values);
        }
    }
}

proof fn lemma_read_words_unique(ws: Seq<Seq<char>>, ls: Seq<Seq<Seq<char>>>)
    ensures
        names_unique(read_words(ws, ls).entries),
        names_unique(settled(read_words(ws, ls))),
    decreases ws.len(),
{
    if ws.len() > 0 {
        let st = read_words(ws.drop_last(), ls.drop_last());
        lemma_read_words_unique(ws.drop_last(), ls.drop_last());
        lemma_switch_through_unique(st, ls.last());
    }
    let st = read_words(ws, ls);
    if st.current is Some {
        lemma_set_entry_unique(st.entries, st.current->0, st.values);
    }
}

proof fn lemma_kept_entries(entries: Seq<EntryView>, removed: Seq<Seq<char>>, want_empty: bool)
    requires
        names_unique(entries),
    ensures
        names_unique(kept_entries(entries, removed, want_empty)),
        forall|k: int|
            0 <= k < kept_entries(entries, removed, want_empty).len() ==> exists|i: int|
                0 <= i < entries.len() && entries[i] == #[trigger] kept_entries(
                    entries,
                    removed,
                    want_empty,
                )[k] && (entries[i].1.len() == 0) == want_empty,
    decreases entries.len(),
{
    if entries.len() > 0 {
        let init = entries.drop_last();
        assert(names_unique(init));
        lemma_kept_entries(init, removed, want_empty);
        let before = kept_entries(init, removed, want_empty);
        let now = kept_entries(entries, removed, want_empty);
        assert forall|k: int| 0 <= k < now.len() implies exists|i: int|
            0 <= i < entries.len() && entries[i] == #[trigger] now[k] && (entries[i].1.len() == 0)
                == want_empty by {
            if k < before.len() {
                assert(now[k] == before[k]);
                let i = choose|i: int|
                    0 <= i < init.len() && init[i] == #[trigger] before[k] && (init[i].1.len() == 0)
                        == want_empty;
                assert(entries[i] == init[i]);
            } else {
                assert(now[k] == entries[entries.len() - 1]);
            }
        }
        assert forall|a: int, b: int| 0 <= a < b < now.len() implies (#[trigger] now[a]).0 != (
        #[trigger] now[b]).0 by {
            if b < before.len() {
                assert(now[a] == before[a] && now[b] == before[b]);
            } else {
                assert(now[a] == before[a]);
                let i = choose|i: int|
                    0 <= i < init.len() && init[i] == #[trigger] before[a] && (init[i].1.len() == 0)
                        == want_empty;
                assert(entries[i] == init[i]);
                assert(now[b] == entries[entries.len() - 1]);
                assert(entries[i].0 != entries[entries.len() - 1].0);
            }
        }
    }
}

/// A command line taken apart names each option and each flag once, and no
/// name is both an option and a flag.
pub proof fn lemma_parsed_wf(words: Seq<Seq<char>>, ls: Seq<Seq<Seq<char>>>)
    ensures
        parsed_with(words, ls).wf(),
{
    let st = read_words(words.drop_first(), ls.drop_first());
    let entries = settled(st);
    lemma_read_words_unique(words.drop_first(), ls.drop_first());
    lemma_kept_entries(entries, st.removed, false);
    lemma_kept_entries(entries, st.removed, true);
    let args = kept_entries(entries, st.removed, false);
    let fl = kept_entries(entries, st.removed, true);
    let flags = fl.map_values(|e: EntryView| e.0);
    assert forall|a: int, b: int| 0 <= a < b < flags.len() implies #[trigger] flags[a]
        != #[trigger] flags[b] by {
        assert(fl[a].0 != fl[b].0);
    }
    assert forall|a: int, b: int| 0 <= a < args.len() && 0 <= b < flags.len() implies (
    #[trigger] args[a]).0 != #[trigger] flags[b] by {
        let i = choose|i: int|
            0 <= i < entries.len() && entries[i] == #[trigger] args[a] && (entries[i].1.len() == 0)
                == false;
        let j = choose|j: int|
            0 <= j < entries.len() && entries[j] == #[trigger] fl[b] && (entries[j].1.len() == 0)
                == true;
        if i < j {
            assert(entries[i].0 != entries[j].0);
        } else if j < i {
            assert(entries[j].0 != entries[i].0);
        }
    }
}

/// Whether `s` begins with `p`.
fn starts_with_text(s: &str, p: &str) -> (r: bool)
    ensures
        r == begins_with(s@, p@),
{
    let n = s.unicode_len();
    let m = p.unicode_len();
    if m > n {
        return false;
    }
    let mut j: usize = 0;
    while j < m
        invariant
            j <= m <= n,
            n == s@.len(),
            m == p@.len(),
            forall|i: int| 0 <= i < j ==> s@[i] == p@[i],
        decreases m - j,
    {
        if s.get_char(j) != p.get_char(j) {
            assert(s@.subrange(0, m as int)[j as int] != p@[j as int]);
            return false;
        }
        j += 1;
    }
    assert(s@.subrange(0, m as int) =~= p@);
    true
}

/// The same strings, held anew.
fn clone_texts(v: &Vec<String>) -> (r: Vec<String>)
    ensures
        texts(r@) == texts(v@),
{
    let mut r: Vec<String> = Vec::new();
    let mut j: usize = 0;
    while j < v.len()
        invariant
            j <= v.len(),
            texts(r@) =~= texts(v@).subrange(0, j as int),
        decreases v.len() - j,
    {
        let ghost r0 = texts(r@);
        r.push(v[j].clone());
        assert(texts(r@) =~= r0.push(v@[j as int]@));
        j += 1;
    }
    assert(texts(v@).subrange(0, v.len() as int) =~= texts(v@));
    r
}

/// Whether `name` is among `names`.
fn holds_text(names: &Vec<String>, name: &String) -> (r: bool)
    ensures
        r == texts(names@).contains(name@),
{
    let mut j: usize = 0;
    while j < names.len()
        invariant
            j <= names.len(),
            forall|i: int| 0 <= i < j ==> names@[i]@ != name@,
        decreases names.len() - j,
    {
        if names[j] == *name {
            assert(texts(names@)[j as int] == name@);
            return true;
        }
        j += 1;
    }
    assert forall|i: int| 0 <= i < texts(names@).len() implies texts(names@)[i] != name@ by {
        assert(texts(names@)[i] == names@[i]@);
    }
    false
}

proof fn lemma_find_entry_extends(s: Seq<EntryView>, name: Seq<char>, m: int, n: int)
    requires
        0 <= m <= n <= s.len(),
        find_entry(s.subrange(0, m), name) is Some,
    ensures
        find_entry(s.subrange(0, n), name) == find_entry(s.subrange(0, m), name),
    decreases n - m,
{
    if m < n {
        lemma_find_entry_extends(s, name, m, n - 1);
        assert(s.subrange(0, n).drop_last() =~= s.subrange(0, n - 1));
    }
}

/// Where the entry named `name` stands, if there is one.
fn entry_index(entries: &Vec<(String, Vec<String>)>, name: &String) -> (r: Option<usize>)
    ensures
        r is Some <==> find_entry(entry_views(entries@), name@) is Some,
        r is Some ==> find_entry(entry_views(entries@), name@) == Some(r->0 as int) && r->0
            < entries@.len(),
{
    let ghost views = entry_views(entries@);
    let mut j: usize = 0;
    while j < entries.len()
        invariant
            j <= entries.len(),
            views == entry_views(entries@),
            find_entry(views.subrange(0, j as int), name@) is None,
        decreases entries.len() - j,
    {
        assert(views.subrange(0, j + 1).drop_last() =~= views.subrange(0, j as int));
        if entries[j].0 == *name {
            assert(find_entry(views.subrange(0, j + 1), name@) == Some(j as int));
            proof {
                lemma_find_entry_extends(views, name@, j + 1, views.len() as int);
            }
            assert(views.subrange(0, views.len() as int) =~= views);
            return Some(j);
        }
        j += 1;
    }
    assert(views.subrange(0, views.len() as int) =~= views);
    None
}

/// A command line being read, word by word.
struct Reader {
    entries: Vec<(String, Vec<String>)>,
    removed: Vec<String>,
    subcommand: Vec<String>,
    current: Option<String>,
    values: Vec<String>,
}

impl View for Reader {
    type V = ParseState;

    closed spec fn view(&self) -> ParseState {
        ParseState {
            entries: entry_views(self.entries@),
            removed: texts(self.removed@),
            subcommand: texts(self.subcommand@),
            current: match self.current {
                Some(c) => Some(c@),
                None => None,
            },
            values: texts(self.values@),
        }
    }
}

impl Reader {
    /// Sets the entry `name` to `values`.
    fn put_entry(&mut self, name: String, values: Vec<String>)
        ensures
            final(self)@ == (ParseState {
                entries: set_entry(old(self)@.entries, name@, texts(values@)),
                ..old(self)@
            }),
    {
        let ghost before = self@;
        assert(before.entries == entry_views(self.entries@));
        let ghost key = name@;
        let ghost vals = texts(values@);
        match entry_index(&self.entries, &name) {
            Some(i) => {
                assert(find_entry(before.entries, key) == Some(i as int));
                self.entries[i] = (name, values);
                assert(entry_views(self.entries@) =~= before.entries.update(i as int, (key, vals)));
                assert(set_entry(before.entries, key, vals) == before.entries.update(
                    i as int,
                    (key, vals),
                ));
            },
            None => {
                assert(find_entry(before.entries, key) is None);
                self.entries.push((name, values));
                assert(entry_views(self.entries@) =~= before.entries.push((key, vals)));
            },
        }
        assert(self@.entries == set_entry(before.entries, key, vals));
        assert(self@.removed == before.removed);
        assert(self@.current == before.current);
    }

    /// Lets the current option put down its values.
    fn settle(&mut self)
        ensures
            final(self)@ == (ParseState { entries: settled(old(self)@), ..old(self)@ }),
    {
        match &self.current {
            Some(name) => {
                let name = name.clone();
                let values = clone_texts(&self.values);
                self.put_entry(name, values);
            },
            None => {},
        }
    }

    /// The values recorded for `name`.
    fn values_for(&self, name: &String) -> (r: Vec<String>)
        ensures
            texts(r@) == recorded_values(self@.entries, name@),
    {
        match entry_index(&self.entries, name) {
            Some(i) => {
                assert(entry_views(self.entries@)[i as int] == (
                self.entries@[i as int].0@,
                texts(self.entries@[i as int].1@),
                ));
                clone_texts(&self.entries[i].1)
            },
            None => {
                let r: Vec<String> = Vec::new();
                assert(texts(r@) =~= Seq::<Seq<char>>::empty());
                r
            },
        }
    }

    /// Moves on to the option `name`.
    fn switch_to(&mut self, name: String)
        ensures
            final(self)@ == switch_to(old(self)@, name@),
    {
        self.settle();
        let values = self.values_for(&name);
        self.current = Some(name);
        self.values = values;
    }

    /// Reads the word `w`, whose graphemes after its leading `-` are `letters`.
    fn step(&mut self, w: &String, letters: &Vec<String>)
        ensures
            final(self)@ == step(old(self)@, w@, texts(letters@)),
    {
        let ghost st = self@;
        let n = w.as_str().unicode_len();
        proof {
            reveal_strlit("--");
            reveal_strlit("--no-");
            reveal_strlit("-");
        }
        if starts_with_text(w.as_str(), "--") {
            if starts_with_text(w.as_str(), "--no-") {
                self.settle();
                self.removed.push(w.as_str().substring_char(5, n).to_owned());
                self.current = None;
                assert(texts(self.removed@) =~= st.removed.push(w@.subrange(5, w@.len() as int)));
            } else {
                self.switch_to(w.as_str().substring_char(2, n).to_owned());
            }
        } else if starts_with_text(w.as_str(), "-") {
            let ghost gs = texts(letters@);
            let mut j: usize = 0;
            while j < letters.len()
                invariant
                    j <= letters.len(),
                    gs == texts(letters@),
                    self@ == switch_through(st, gs.subrange(0, j as int)),
                decreases letters.len() - j,
            {
                assert(gs.subrange(0, j + 1).drop_last() =~= gs.subrange(0, j as int));
                self.switch_to(letters[j].clone());
                j += 1;
            }
            assert(gs.subrange(0, letters.len() as int) =~= gs);
        } else if self.current.is_some() {
            self.values.push(w.clone());
            assert(texts(self.values@) =~= st.values.push(w@));
        } else {
            self.subcommand.push(w.clone());
            assert(texts(self.subcommand@) =~= st.subcommand.push(w@));
        }
    }
}

/// Takes a command line apart, given the graphemes of each word after its
/// leading `-` (`letters[k]` for `args[k]`; only those of the words that are
/// runs of one-letter options are read); `args[0]` is the name the program
/// was called by.
pub fn parse_args_with_graphemes(args: &Vec<String>, letters: &Vec<Vec<String>>) -> (r: Result<
    Arguments,
    ArgumentsError,
>)
    requires
        letters@.len() == args@.len(),
    ensures
        r is Err <==> args@.len() == 0,
        r is Err ==> r->Err_0 == ArgumentsError::MissingCommand,
        r is Ok ==> r->Ok_0@ == parsed_with(texts(args@), text_lists(letters@)),
        r is Ok ==> r->Ok_0@.wf(),
{
    if args.len() == 0 {
        return Err(ArgumentsError::MissingCommand);
    }
    let ghost words = texts(args@);
    let ghost ls = text_lists(letters@);
    let mut reader = Reader {
        entries: Vec::new(),
        removed: Vec::new(),
        subcommand: Vec::new(),
        current: None,
        values: Vec::new(),
    };
    assert(reader@ == read_words(words.subrange(1, 1), ls.subrange(1, 1))) by {
        assert(entry_views(reader.entries@) =~= Seq::<EntryView>::empty());
        assert(texts(reader.removed@) =~= Seq::<Seq<char>>::empty());
        assert(texts(reader.subcommand@) =~= Seq::<Seq<char>>::empty());
        assert(texts(reader.values@) =~= Seq::<Seq<char>>::empty());
        assert(words.subrange(1, 1) =~= Seq::<Seq<char>>::empty());
    }
    let mut k: usize = 1;
    while k < args.len()
        invariant
            1 <= k <= args.len(),
            words == texts(args@),
            ls == text_lists(letters@),
            letters@.len() == args@.len(),
            reader@ == read_words(words.subrange(1, k as int), ls.subrange(1, k as int)),
        decreases args.len() - k,
    {
        assert(words.subrange(1, k + 1).drop_last() =~= words.subrange(1, k as int));
        assert(words.subrange(1, k + 1).last() == args@[k as int]@);
        assert(ls.subrange(1, k + 1).drop_last() =~= ls.subrange(1, k as int));
        assert(ls.subrange(1, k + 1).last() == texts(letters@[k as int]@));
        reader.step(&args[k], &letters[k]);
        k += 1;
    }
    assert(words.subrange(1, args.len() as int) =~= words.drop_first());
    assert(ls.subrange(1, args.len() as int) =~= ls.drop_first());
    let ghost st = reader@;
    reader.settle();
    let ghost entries = reader@.entries;
    let ghost removed = reader@.removed;
    assert(entries == settled(st));
    let mut kept: Vec<(String, Vec<String>)> = Vec::new();
    let mut flags: Vec<String> = Vec::new();
    let mut j: usize = 0;
    while j < reader.entries.len()
        invariant
            j <= reader.entries.len(),
            entries == entry_views(reader.entries@),
            removed == texts(reader.removed@),
            entry_views(kept@) == kept_entries(entries.subrange(0, j as int), removed, false),
            texts(flags@) == kept_entries(entries.subrange(0, j as int), removed, true).map_values(
                |e: EntryView| e.0,
            ),
        decreases reader.entries.len() - j,
    {
        let ghost prefix = entries.subrange(0, j + 1);
        assert(prefix.drop_last() =~= entries.subrange(0, j as int));
        assert(prefix.last() == entries[j as int]);
        let ghost f0 = kept_entries(entries.subrange(0, j as int), removed, true);
        let name = &reader.entries[j].0;
        let values = &reader.entries[j].1;
        if !holds_text(&reader.removed, name) {
            if values.len() > 0 {
                let ghost k0 = entry_views(kept@);
                kept.push((name.clone(), clone_texts(values)));
                assert(entry_views(kept@) =~= k0.push(entries[j as int]));
                assert(kept_entries(prefix, removed, true) == f0);
            } else {
                let ghost t0 = texts(flags@);
                flags.push(name.clone());
                assert(texts(flags@) =~= t0.push(name@));
                assert(kept_entries(prefix, removed, true) == f0.push(entries[j as int]));
                assert(f0.push(entries[j as int]).map_values(|e: EntryView| e.0) =~= f0.map_values(
                    |e: EntryView| e.0,
                ).push(name@));
            }
        }
        j += 1;
    }
    assert(entries.subrange(0, entries.len() as int) =~= entries);
    proof {
        lemma_parsed_wf(words, ls);
    }
    Ok(Arguments { args: kept, flags, subcommand: reader.subcommand, command: args[0].clone() })
}

/// Takes a command line apart; `args[0]` is the name the program was called by.
///
/// A word `--name` starts the option `name`, and the words after it that do
/// not start with `-` are its values; an option met again takes up the values
/// it had. `-abc` starts the options `a`, `b` and `c` in turn, one for each
/// grapheme. `--no-name` switches `name` off wherever it stands. Words before
/// any option make up the subcommand. Options left with values are in `args`,
/// those without any in `flags`.
pub fn parse_args(args: &Vec<String>) -> (r: Result<Arguments, ArgumentsError>)
    ensures
        r is Err <==> args@.len() == 0,
        r is Err ==> r->Err_0 == ArgumentsError::MissingCommand,
        r is Ok ==> r->Ok_0@ == parsed_arguments(texts(args@)),
        r is Ok ==> r->Ok_0@.wf(),
{
    let ghost words = texts(args@);
    let mut letters: Vec<Vec<String>> = Vec::new();
    let mut k: usize = 0;
    while k < args.len()
        invariant
            k <= args.len(),
            letters@.len() == k,
            words == texts(args@),
            text_lists(letters@) =~= short_letters(words).subrange(0, k as int),
        decreases args.len() - k,
    {
        proof {
            reveal_strlit("--");
            reveal_strlit("-");
        }
        let w = args[k].as_str();
        let ghost l0 = text_lists(letters@);
        if starts_with_text(w, "-") && !starts_with_text(w, "--") {
            let n = w.unicode_len();
            letters.push(graphemes_of(w.substring_char(1, n)));
        } else {
            letters.push(Vec::new());
            assert(texts(letters@[k as int]@) =~= Seq::<Seq<char>>::empty());
        }
        assert(text_lists(letters@) =~= l0.push(short_letters(words)[k as int]));
        k += 1;
    }
    assert(short_letters(words).subrange(0, args.len() as int) =~= short_letters(words));
    parse_args_with_graphemes(args, &letters)
}

impl Arguments {
    /// The values of the option `name`, if it was given any.
    pub fn get(&self, name: &str) -> (r: Option<&Vec<String>>)
        ensures
            r is Some <==> find_entry(self@.args, name@) is Some,
            r is Some ==> texts(r->0@) == self@.args[find_entry(self@.args, name@)->0].1,
    {
        let key = name.to_owned();
        match entry_index(&self.args, &key) {
            Some(i) => {
                assert(entry_views(self.args@)[i as int] == (
                self.args@[i as int].0@,
                texts(self.args@[i as int].1@),
                ));
                Some(&self.args[i].1)
            },
            None => None,
        }
    }

    /// Whether `name` was given as an option without values.
    pub fn has_flag(&self, name: &str) -> (r: bool)
        ensures
            r == self@.flags.contains(name@),
    {
        let key = name.to_owned();
        holds_text(&self.flags, &key)
    }
}

} // verus!
