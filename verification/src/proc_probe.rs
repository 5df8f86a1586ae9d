//! Linux `/proc` probes: per-thread scheduling, context switches, off-CPU sleep location,
//! thread names and page faults.
//!
//! Each probe reads one file of the kernel's. Its path is given here, and so is what its
//! text says; opening and reading it is left to the caller, who hands over the text, or
//! `None` where the file could not be read. A file that is missing, empty or malformed
//! counts as zero.

use std::collections::BTreeMap;

use vstd::prelude::*;

use crate::text;

verus! {

/// The text of a file that may have been unreadable: nothing, then.
pub open spec fn contents(text: Option<&str>) -> Seq<char> {
    match text {
        Some(s) => s@,
        None => Seq::empty(),
    }
}

fn chars_in(text: Option<&str>) -> (r: Vec<char>)
    ensures
        r@ == contents(text),
{
    match text {
        Some(s) => text::chars_of(s),
        None => Vec::new(),
    }
}

// ---- paths ----

/// The file `name` of the thread `tid` of this process.
pub open spec fn task_path(tid: u64, name: Seq<char>) -> Seq<char> {
    "/proc/self/task/"@ + text::decimal(tid as nat) + "/"@ + name
}

fn task_file(tid: u64, name: &str) -> (r: String)
    ensures
        r@ == task_path(tid, name@),
{
    let mut out = String::new();
    out.append("/proc/self/task/");
    text::push_decimal(&mut out, tid);
    out.append("/");
    out.append(name);
    assert(out@ =~= task_path(tid, name@));
    out
}

/// Where the calling thread's schedstat is read.
pub fn self_schedstat_path() -> (r: String)
    ensures
        r@ == "/proc/thread-self/schedstat"@,
{
    "/proc/thread-self/schedstat".to_owned()
}

/// Where the schedstat of a thread is read.
pub fn schedstat_path(tid: u64) -> (r: String)
    ensures
        r@ == task_path(tid, "schedstat"@),
{
    task_file(tid, "schedstat")
}

/// Where the status of a thread is read.
pub fn status_path(tid: u64) -> (r: String)
    ensures
        r@ == task_path(tid, "status"@),
{
    task_file(tid, "status")
}

/// Where the sleep location of a thread is read.
pub fn wchan_path(tid: u64) -> (r: String)
    ensures
        r@ == task_path(tid, "wchan"@),
{
    task_file(tid, "wchan")
}

/// The directory with an entry for each thread of this process.
pub fn task_dir() -> (r: String)
    ensures
        r@ == "/proc/self/task"@,
{
    "/proc/self/task".to_owned()
}

/// Where the name of the thread behind a directory entry is read; `None` for an entry whose
/// name is no thread id.
pub fn comm_path(entry: &str) -> (r: Option<String>)
    ensures
        match text::number(entry@) {
            Some(tid) => r matches Some(path) && path@ == task_path(tid, "comm"@),
            None => r is None,
        },
{
    match text::parse_number(&text::chars_of(entry)) {
        Some(tid) => Some(task_file(tid, "comm")),
        None => None,
    }
}

/// Where the page-fault counts of this process are read.
pub fn stat_path() -> (r: String)
    ensures
        r@ == "/proc/self/stat"@,
{
    "/proc/self/stat".to_owned()
}

// ---- scheduling ----

/// What a schedstat file says: nanoseconds on a CPU, then nanoseconds runnable but waiting
/// on a run-queue.
pub open spec fn schedstat(s: Seq<char>) -> (u64, u64) {
    (text::number_at(text::fields(s), 0), text::number_at(text::fields(s), 1))
}

/// `(cpu_ns, runqueue_wait_ns)` from the text of a schedstat file.
pub fn read_schedstat(text: Option<&str>) -> (r: (u64, u64))
    ensures
        r == schedstat(contents(text)),
{
    let fields = text::split_fields(&chars_in(text));
    (text::parse_number_at(&fields, 0), text::parse_number_at(&fields, 1))
}

/// Nanoseconds that the calling thread spent runnable but waiting on a run-queue, from the
/// text at `self_schedstat_path`.
pub fn self_runqueue_wait_ns(text: Option<&str>) -> (r: u64)
    ensures
        r == schedstat(contents(text)).1,
{
    read_schedstat(text).1
}

/// `(cpu_ns, runqueue_wait_ns)` of a thread, from the text at `schedstat_path`.
pub fn tid_schedstat(text: Option<&str>) -> (r: (u64, u64))
    ensures
        r == schedstat(contents(text)),
{
    read_schedstat(text)
}

// ---- context switches ----

/// The first of the lines that starts with `key`.
pub open spec fn line_with(lines: Seq<Seq<char>>, key: Seq<char>) -> Option<Seq<char>>
    decreases lines.len(),
{
    if lines.len() == 0 {
        None
    } else if key.is_prefix_of(lines[0]) {
        Some(lines[0])
    } else {
        line_with(lines.drop_first(), key)
    }
}

/// What a status file says of `key`: the number in the second field of the first line that
/// starts with it, or zero.
pub open spec fn status_value(s: Seq<char>, key: Seq<char>) -> u64 {
    match line_with(text::lines(s), key) {
        Some(line) => text::number_at(text::fields(line), 1),
        None => 0,
    }
}

fn find_status_value(lines: &Vec<Vec<char>>, key: &str) -> (r: u64)
    ensures
        r == match line_with(text::texts(lines@), key@) {
            Some(line) => text::number_at(text::fields(line), 1),
            None => 0,
        },
{
    let key_chars = text::chars_of(key);
    let ghost all = text::texts(lines@);
    let mut i: usize = 0;
    assert(all.skip(0) =~= all);
    while i < lines.len()
        invariant
            i <= lines.len(),
            key_chars@ == key@,
            all == text::texts(lines@),
            line_with(all.skip(i as int), key@) == line_with(all, key@),
        decreases lines.len() - i,
    {
        assert(all.skip(i as int)[0] == lines@[i as int]@);
        if text::starts_with(&lines[i], &key_chars) {
            return text::parse_number_at(&text::split_fields(&lines[i]), 1);
        }
        assert(all.skip(i as int).drop_first() =~= all.skip(i + 1));
        i += 1;
    }
    0
}

/// `(voluntary, nonvoluntary)` context switches of a thread, from the text at `status_path`.
pub fn tid_ctxt(text: Option<&str>) -> (r: (u64, u64))
    ensures
        r.0 == status_value(contents(text), "voluntary_ctxt_switches"@),
        r.1 == status_value(contents(text), "nonvoluntary_ctxt_switches"@),
{
    let lines = text::split_lines(&chars_in(text));
    (
        find_status_value(&lines, "voluntary_ctxt_switches"),
        find_status_value(&lines, "nonvoluntary_ctxt_switches"),
    )
}

// ---- sleep location ----

/// The kernel function a thread is blocked in (`0` if it is on a CPU or runnable), from the
/// text at `wchan_path`.
pub fn tid_wchan(text: Option<&str>) -> (r: String)
    ensures
        r@ == text::trimmed(contents(text)),
{
    text::string_of(&text::trim(&chars_in(text)))
}

// ---- thread names ----

/// The entries of the task directory, each with the text of the comm file behind it.
pub open spec fn entries_of(v: Seq<(String, Option<String>)>) -> Seq<(Seq<char>, Seq<char>)> {
    Seq::new(
        v.len(),
        |i: int|
            (
                v[i].0@,
                match v[i].1 {
                    Some(s) => s@,
                    None => Seq::empty(),
                },
            ),
    )
}

/// The threads that a task directory lists: each entry whose name is a thread id names that
/// thread, a later one in place of an earlier one.
pub open spec fn threads(entries: Seq<(Seq<char>, Seq<char>)>) -> Map<u64, Seq<char>>
    decreases entries.len(),
{
    if entries.len() == 0 {
        Map::empty()
    } else {
        let before = threads(entries.drop_last());
        match text::number(entries.last().0) {
            Some(tid) => before.insert(tid, text::trimmed(entries.last().1)),
            None => before,
        }
    }
}

/// The texts that a map to strings holds.
pub open spec fn names(m: Map<u64, String>) -> Map<u64, Seq<char>> {
    m.map_values(|s: String| s@)
}

/// All threads of this process: tid -> comm name. Takes the entries of `task_dir`, each
/// with the text at its `comm_path`.
pub fn thread_names(entries: &Vec<(String, Option<String>)>) -> (r: BTreeMap<u64, String>)
    ensures
        names(r@) == threads(entries_of(entries@)),
{
    let mut out: BTreeMap<u64, String> = BTreeMap::new();
    let ghost all = entries_of(entries@);
    let mut i: usize = 0;
    assert(names(out@) =~= threads(all.take(0)));
    while i < entries.len()
        invariant
            i <= entries.len(),
            all == entries_of(entries@),
            names(out@) == threads(all.take(i as int)),
        decreases entries.len() - i,
    {
        let entry = &entries[i];
        proof {
            assert(all.take(i + 1).drop_last() =~= all.take(i as int));
            assert(all.take(i + 1).last() == all[i as int]);
        }
        match text::parse_number(&text::chars_of(entry.0.as_str())) {
            Some(tid) => {
                let comm = match &entry.1 {
                    Some(s) => text::chars_of(s.as_str()),
                    None => Vec::new(),
                };
                let name = text::string_of(&text::trim(&comm));
                let ghost held = out@;
                out.insert(tid, name);
                assert(names(out@) =~= names(held).insert(tid, name@));
            },
            None => {},
        }
        i += 1;
    }
    assert(all.take(i as int) =~= all);
    out
}

// ---- page faults ----

/// What a process stat file says of page faults, minor and major: the thread's name stands
/// in parentheses and may hold anything, so the fields are counted after the last `)`.
pub open spec fn faults(s: Seq<char>) -> (u64, u64) {
    let rest = text::fields(text::pieces(s, ')').last());
    (text::number_at(rest, 7), text::number_at(rest, 9))
}

/// `(minor_faults, major_faults)` of this process, from the text at `stat_path`.
pub fn proc_faults(text: Option<&str>) -> (r: (u64, u64))
    ensures
        r == faults(contents(text)),
{
    let parts = text::split_pieces(&chars_in(text), ')');
    let last = &parts[parts.len() - 1];
    assert(last@ == text::pieces(contents(text), ')').last());
    let fields = text::split_fields(last);
    (text::parse_number_at(&fields, 7), text::parse_number_at(&fields, 9))
}

// ---- laws ----

/// A file that is empty or cannot be read says zero throughout, and an empty directory
/// lists no thread.
pub proof fn law_nothing_reads_as_zero()
    ensures
        contents(None) == Seq::<char>::empty(),
        schedstat(Seq::empty()) == (0u64, 0u64),
        forall|key: Seq<char>| status_value(Seq::empty(), key) == 0,
        text::trimmed(Seq::empty()) == Seq::<char>::empty(),
        faults(Seq::empty()) == (0u64, 0u64),
        threads(Seq::empty()) == Map::<u64, Seq<char>>::empty(),
{
    let none = Seq::<char>::empty();
    text::law_one_piece_without_separator(none, ')');
    assert(text::pieces(none, '\n') =~= seq![none]);
    assert(text::lines(none) =~= Seq::empty());
}

/// The numbers that the kernel writes to a schedstat file are the numbers read from it.
pub proof fn law_schedstat_reads_back(cpu: u64, wait: u64, slices: u64)
    ensures
        schedstat(
            text::spaced(
                seq![
                    text::decimal(cpu as nat),
                    text::decimal(wait as nat),
                    text::decimal(slices as nat),
                ],
            ).push('\n'),
        ) == (cpu, wait),
{
    let words = seq![
        text::decimal(cpu as nat),
        text::decimal(wait as nat),
        text::decimal(slices as nat),
    ];
    let line = text::spaced(words);
    text::law_decimal_is_digits(cpu as nat);
    text::law_decimal_is_digits(wait as nat);
    text::law_decimal_is_digits(slices as nat);
    text::law_fields_of_spaced(words);
    text::law_fields_split_at_whitespace(line, '\n', Seq::empty());
    assert(line.push('\n') + Seq::<char>::empty() =~= line.push('\n'));
    assert(words + text::fields(Seq::empty()) =~= words);
    text::law_number_of_decimal(cpu);
    text::law_number_of_decimal(wait);
}

/// Nothing up to the last closing parenthesis of a stat file, and so nothing in a thread's
/// name, has a part in the fault counts.
pub proof fn law_faults_ignore_the_name(name: Seq<char>, rest: Seq<char>)
    requires
        !rest.contains(')'),
    ensures
        faults(name.push(')') + rest) == (
            text::number_at(text::fields(rest), 7),
            text::number_at(text::fields(rest), 9),
        ),
{
    text::law_pieces_split_at_separator(name, ')', rest);
    text::law_one_piece_without_separator(rest, ')');
}

proof fn lemma_spaced_contains(words: Seq<Seq<char>>, c: char)
    requires
        c != ' ',
        forall|i: int| 0 <= i < words.len() ==> !(#[trigger] words[i]).contains(c),
    ensures
        !text::spaced(words).contains(c),
    decreases words.len(),
{
    if words.len() > 1 {
        let rest = words.drop_last();
        lemma_spaced_contains(rest, c);
        let s = text::spaced(rest).push(' ') + words.last();
        assert forall|i: int| 0 <= i < s.len() implies s[i] != c by {
            if i < text::spaced(rest).len() {
                assert(text::spaced(rest).contains(text::spaced(rest)[i]));
            } else if i > text::spaced(rest).len() {
                let k = i - text::spaced(rest).len() - 1;
                assert(words.last().contains(words.last()[k]));
            }
        }
    }
}

/// The fault counts that the kernel writes to a stat file are the counts read from it,
/// whatever the thread is called: `words` are the fields after the name.
pub proof fn law_faults_read_back(
    name: Seq<char>,
    words: Seq<Seq<char>>,
    minor: u64,
    major: u64,
)
    requires
        words.len() > 9,
        forall|i: int|
            0 <= i < words.len() ==> text::is_word(#[trigger] words[i]) && !words[i].contains(')'),
        words[7] == text::decimal(minor as nat),
        words[9] == text::decimal(major as nat),
    ensures
        faults(name.push(')') + seq![' '] + text::spaced(words).push('\n')) == (minor, major),
{
    let line = text::spaced(words);
    let end = line.push('\n');
    let rest = seq![' '] + end;
    lemma_spaced_contains(words, ')');
    assert forall|i: int| 0 <= i < rest.len() implies rest[i] != ')' by {
        if 0 < i <= line.len() {
            assert(line.contains(line[i - 1]));
        }
    }
    assert(name.push(')') + seq![' '] + end =~= name.push(')') + rest);
    law_faults_ignore_the_name(name, rest);
    text::law_fields_of_spaced(words);
    text::law_fields_split_at_whitespace(Seq::empty(), ' ', end);
    assert(Seq::<char>::empty().push(' ') + end =~= rest);
    text::law_fields_split_at_whitespace(line, '\n', Seq::empty());
    assert(line.push('\n') + Seq::<char>::empty() =~= end);
    assert(text::fields(rest) =~= words);
    text::law_number_of_decimal(minor);
    text::law_number_of_decimal(major);
}

/// A line of a status file: the key, a colon, a tab and the number.
pub open spec fn status_line(key: Seq<char>, n: u64) -> Seq<char> {
    key.push(':').push('\t') + text::decimal(n as nat)
}

proof fn lemma_status_line(key: Seq<char>, n: u64)
    requires
        text::is_word(key),
    ensures
        text::number_at(text::fields(status_line(key, n)), 1) == n,
        text::lines(status_line(key, n).push('\n')) == seq![status_line(key, n)],
        key.is_prefix_of(status_line(key, n)),
{
    let line = status_line(key, n);
    let digits = text::decimal(n as nat);
    let label = key.push(':');
    text::law_decimal_is_digits(n as nat);
    text::law_number_of_decimal(n);
    assert forall|i: int| 0 <= i < label.len() implies !text::is_space(#[trigger] label[i]) by {
        if i < key.len() {
            assert(label[i] == key[i]);
        }
    }
    text::law_word_is_its_own_field(label);
    text::law_word_is_its_own_field(digits);
    text::law_fields_split_at_whitespace(label, '\t', digits);
    assert forall|i: int| 0 <= i < line.len() implies line[i] != '\n' by {
        if i < label.len() {
            assert(line[i] == label[i]);
        } else if i > label.len() {
            assert(line[i] == digits[i - label.len() - 1]);
        }
    }
    text::law_one_line(line);
    assert(line.last() == digits.last());
    assert(text::is_digit(digits[digits.len() - 1]));
    assert(line.subrange(0, key.len() as int) =~= key);
}

proof fn lemma_line_with_skips(a: Seq<Seq<char>>, b: Seq<Seq<char>>, key: Seq<char>)
    requires
        forall|i: int| 0 <= i < a.len() ==> !key.is_prefix_of(#[trigger] a[i]),
    ensures
        line_with(a + b, key) == line_with(b, key),
    decreases a.len(),
{
    if a.len() == 0 {
        assert(a + b =~= b);
    } else {
        assert((a + b)[0] == a[0]);
        assert((a + b).drop_first() =~= a.drop_first() + b);
        assert forall|i: int| 0 <= i < a.drop_first().len() implies !key.is_prefix_of(
            #[trigger] a.drop_first()[i],
        ) by {
            assert(a.drop_first()[i] == a[i + 1]);
        }
        lemma_line_with_skips(a.drop_first(), b, key);
    }
}

/// The value of a key is read from its own line, whatever lines stand before and after it,
/// as long as no line before it starts with the key too. `head` is the lines before.
pub proof fn law_status_reads_back(head: Seq<char>, key: Seq<char>, n: u64, tail: Seq<char>)
    requires
        text::is_word(key),
        head.len() == 0 || head.last() == '\n',
        forall|i: int|
            0 <= i < text::lines(head).len() ==> !key.is_prefix_of(
                #[trigger] text::lines(head)[i],
            ),
    ensures
        status_value(head + status_line(key, n).push('\n') + tail, key) == n,
{
    let line = status_line(key, n);
    let after = line.push('\n') + tail;
    let s = head + line.push('\n') + tail;
    assert(s =~= head + after);
    lemma_status_line(key, n);
    text::law_lines_split_at_line_feed(line, tail);
    if head.len() == 0 {
        assert(s =~= after);
        assert(head =~= Seq::empty());
        assert(text::pieces(head, '\n') =~= seq![Seq::<char>::empty()]);
        assert(text::lines(head) =~= Seq::empty());
        assert(text::lines(s) =~= text::lines(head) + text::lines(after));
    } else {
        assert(head.drop_last().push('\n') =~= head);
        text::law_lines_split_at_line_feed(head.drop_last(), after);
    }
    lemma_line_with_skips(text::lines(head), text::lines(after), key);
    assert(text::lines(after)[0] == line);
}

/// Both context-switch counts that the kernel writes to a status file are read from it:
/// the voluntary ones first, and neither key taken for the other.
pub proof fn law_ctxt_reads_back(head: Seq<char>, voluntary: u64, nonvoluntary: u64, tail: Seq<char>)
    requires
        head.len() == 0 || head.last() == '\n',
        forall|i: int|
            0 <= i < text::lines(head).len() ==> {
                &&& !"voluntary_ctxt_switches"@.is_prefix_of(#[trigger] text::lines(head)[i])
                &&& !"nonvoluntary_ctxt_switches"@.is_prefix_of(text::lines(head)[i])
            },
    ensures
        ({
            let s = head + status_line("voluntary_ctxt_switches"@, voluntary).push('\n')
                + status_line("nonvoluntary_ctxt_switches"@, nonvoluntary).push('\n') + tail;
            &&& status_value(s, "voluntary_ctxt_switches"@) == voluntary
            &&& status_value(s, "nonvoluntary_ctxt_switches"@) == nonvoluntary
        }),
{
    let k1 = "voluntary_ctxt_switches"@;
    let k2 = "nonvoluntary_ctxt_switches"@;
    reveal_strlit("voluntary_ctxt_switches");
    reveal_strlit("nonvoluntary_ctxt_switches");
    let l1 = status_line(k1, voluntary).push('\n');
    let l2 = status_line(k2, nonvoluntary).push('\n');
    let s = head + l1 + l2 + tail;
    assert(s =~= head + l1 + (l2 + tail));
    law_status_reads_back(head, k1, voluntary, l2 + tail);
    let before = head + l1;
    lemma_status_line(k1, voluntary);
    if head.len() == 0 {
        assert(before =~= l1);
    } else {
        assert(head.drop_last().push('\n') =~= head);
        text::law_lines_split_at_line_feed(head.drop_last(), l1);
    }
    assert forall|i: int| 0 <= i < text::lines(before).len() implies !k2.is_prefix_of(
        #[trigger] text::lines(before)[i],
    ) by {
        let line = text::lines(before)[i];
        if line == status_line(k1, voluntary) {
            assert(line[0] == 'v');
            assert(k2[0] == 'n');
            assert(line.subrange(0, k2.len() as int)[0] == line[0]);
        } else {
            assert(line == text::lines(head)[i]);
        }
    }
    law_status_reads_back(before, k2, nonvoluntary, tail);
}

/// The last entry that names a thread decides what it is called.
pub proof fn law_threads_by_last_entry(entries: Seq<(Seq<char>, Seq<char>)>, i: int, tid: u64)
    requires
        0 <= i < entries.len(),
        text::number(entries[i].0) == Some(tid),
        forall|j: int| i < j < entries.len() ==> text::number(#[trigger] entries[j].0) != Some(tid),
    ensures
        threads(entries).contains_key(tid),
        threads(entries)[tid] == text::trimmed(entries[i].1),
    decreases entries.len(),
{
    if i < entries.len() - 1 {
        let rest = entries.drop_last();
        assert forall|j: int| i < j < rest.len() implies text::number(#[trigger] rest[j].0) != Some(
            tid,
        ) by {
            assert(rest[j] == entries[j]);
        }
        law_threads_by_last_entry(rest, i, tid);
        assert(text::number(entries[entries.len() - 1].0) != Some(tid));
    }
}

/// Only threads that an entry names are listed.
pub proof fn law_threads_are_listed(entries: Seq<(Seq<char>, Seq<char>)>, tid: u64)
    requires
        threads(entries).contains_key(tid),
    ensures
        exists|i: int|
            0 <= i < entries.len() && text::number((#[trigger] entries[i]).0) == Some(tid),
    decreases entries.len(),
{
    if entries.len() > 0 {
        let rest = entries.drop_last();
        if text::number(entries.last().0) == Some(tid) {
            assert(entries[entries.len() - 1] == entries.last());
        } else {
            law_threads_are_listed(rest, tid);
            let i = choose|i: int|
                0 <= i < rest.len() && text::number((#[trigger] rest[i]).0) == Some(tid);
            assert(entries[i] == rest[i]);
        }
    }
}

/// A file that could be read is taken whole, as it stands.
pub proof fn law_readable_text_is_taken_whole(s: &str)
    ensures
        contents(Some(s)) == s@,
{
}

/// The path of a thread's file has the thread id, in decimal notation, and the file's name
/// as its last two parts, below the task directory of this process.
pub proof fn law_task_path_parts(tid: u64, name: Seq<char>)
    requires
        !name.contains('/'),
    ensures
        text::pieces(task_path(tid, name), '/') == seq![
            Seq::empty(),
            seq!['p', 'r', 'o', 'c'],
            seq!['s', 'e', 'l', 'f'],
            seq!['t', 'a', 's', 'k'],
            text::decimal(tid as nat),
            name,
        ],
{
    reveal_strlit("/proc/self/task/");
    reveal_strlit("/");
    let at = '/';
    let proc = seq!['p', 'r', 'o', 'c'];
    let this = seq!['s', 'e', 'l', 'f'];
    let task = seq!['t', 'a', 's', 'k'];
    let digits = text::decimal(tid as nat);
    text::law_decimal_is_digits(tid as nat);
    assert(!digits.contains(at)) by {
        assert forall|i: int| 0 <= i < digits.len() implies digits[i] != at by {
            assert(text::is_digit(digits[i]));
        }
    }
    let e = digits.push(at) + name;
    let d = task.push(at) + e;
    let c = this.push(at) + d;
    let b = proc.push(at) + c;
    let a = Seq::<char>::empty().push(at) + b;
    assert(task_path(tid, name) =~= a);
    text::law_pieces_split_at_separator(Seq::empty(), at, b);
    text::law_pieces_split_at_separator(proc, at, c);
    text::law_pieces_split_at_separator(this, at, d);
    text::law_pieces_split_at_separator(task, at, e);
    text::law_pieces_split_at_separator(digits, at, name);
    text::law_one_piece_without_separator(Seq::empty(), at);
    text::law_one_piece_without_separator(proc, at);
    text::law_one_piece_without_separator(this, at);
    text::law_one_piece_without_separator(task, at);
    text::law_one_piece_without_separator(digits, at);
    text::law_one_piece_without_separator(name, at);
    assert(text::pieces(a, at) =~= seq![Seq::empty(), proc, this, task, digits, name]);
}

/// A field that is there and holds a number reads as that number; any other reads as zero.
pub proof fn law_field_reads_as_its_number(fields: Seq<Seq<char>>, index: int, n: u64)
    ensures
        0 <= index < fields.len() && text::number(fields[index]) == Some(n) ==> text::number_at(
            fields,
            index,
        ) == n,
        0 <= index < fields.len() && text::number(fields[index]) is None ==> text::number_at(
            fields,
            index,
        ) == 0,
        !(0 <= index < fields.len()) ==> text::number_at(fields, index) == 0,
{
}

/// A schedstat file is read by its first two fields, each for itself, whatever else it holds.
pub proof fn law_schedstat_is_two_fields(s: Seq<char>, cpu: u64, wait: u64)
    ensures
        text::fields(s).len() > 0 && text::number(text::fields(s)[0]) == Some(cpu) ==> schedstat(
            s,
        ).0 == cpu,
        text::fields(s).len() > 1 && text::number(text::fields(s)[1]) == Some(wait) ==> schedstat(
            s,
        ).1 == wait,
        text::fields(s).len() == 0 || text::number(text::fields(s)[0]) is None ==> schedstat(s).0
            == 0,
        text::fields(s).len() <= 1 || text::number(text::fields(s)[1]) is None ==> schedstat(s).1
            == 0,
{
}

/// Where no line starts with the key, its value is zero.
pub proof fn law_status_without_key_is_zero(s: Seq<char>, key: Seq<char>)
    requires
        forall|i: int|
            0 <= i < text::lines(s).len() ==> !key.is_prefix_of(#[trigger] text::lines(s)[i]),
    ensures
        status_value(s, key) == 0,
{
    let all = text::lines(s);
    lemma_line_with_skips(all, Seq::empty(), key);
    assert(all + Seq::<Seq<char>>::empty() =~= all);
}

/// The first line that starts with the key decides its value, by the line's second field:
/// the number there, or zero where the line has no such field or it is no number.
pub proof fn law_status_goes_by_the_first_line(
    head: Seq<char>,
    line: Seq<char>,
    tail: Seq<char>,
    key: Seq<char>,
    n: u64,
)
    requires
        head.len() == 0 || head.last() == '\n',
        forall|i: int|
            0 <= i < text::lines(head).len() ==> !key.is_prefix_of(
                #[trigger] text::lines(head)[i],
            ),
        !line.contains('\n'),
        line.len() > 0 ==> line.last() != '\r',
        key.is_prefix_of(line),
    ensures
        text::fields(line).len() > 1 && text::number(text::fields(line)[1]) == Some(n)
            ==> status_value(head + line.push('\n') + tail, key) == n,
        text::fields(line).len() <= 1 || text::number(text::fields(line)[1]) is None
            ==> status_value(head + line.push('\n') + tail, key) == 0,
{
    let after = line.push('\n') + tail;
    let s = head + line.push('\n') + tail;
    assert(s =~= head + after);
    text::law_one_line(line);
    text::law_lines_split_at_line_feed(line, tail);
    if head.len() == 0 {
        assert(!head.contains('\n'));
        text::law_last_line(head);
        assert(s =~= after);
        assert(text::lines(s) =~= text::lines(head) + text::lines(after));
    } else {
        assert(head.drop_last().push('\n') =~= head);
        text::law_lines_split_at_line_feed(head.drop_last(), after);
    }
    lemma_line_with_skips(text::lines(head), text::lines(after), key);
    assert(text::lines(after)[0] == line);
}

/// A stat file without any parenthesis is read by its fields from the start.
pub proof fn law_faults_without_a_name(s: Seq<char>)
    requires
        !s.contains(')'),
    ensures
        faults(s) == (
            text::number_at(text::fields(s), 7),
            text::number_at(text::fields(s), 9),
        ),
{
    text::law_one_piece_without_separator(s, ')');
}

/// Every entry has its say: whatever is listed, each entry whose name is a thread id that no
/// later entry's name is gives that thread, and calls it by the trimmed text of its comm
/// file, or by nothing where that could not be read. `found` is the result for `entries`.
pub proof fn law_every_entry_is_listed(
    entries: Seq<(String, Option<String>)>,
    found: Map<u64, String>,
    i: int,
    tid: u64,
)
    requires
        names(found) == threads(entries_of(entries)),
        0 <= i < entries.len(),
        text::number(entries[i].0@) == Some(tid),
        forall|j: int|
            i < j < entries.len() ==> text::number((#[trigger] entries[j]).0@) != Some(tid),
    ensures
        found.contains_key(tid),
        entries[i].1 matches Some(comm) ==> found[tid]@ == text::trimmed(comm@),
        entries[i].1 is None ==> found[tid]@ == Seq::<char>::empty(),
{
    let all = entries_of(entries);
    assert(all.len() == entries.len());
    assert(all[i].0 == entries[i].0@);
    assert forall|j: int| i < j < all.len() implies text::number(#[trigger] all[j].0) != Some(
        tid,
    ) by {
        assert(all[j].0 == entries[j].0@);
    }
    law_threads_by_last_entry(all, i, tid);
    assert(names(found).contains_key(tid));
    assert(names(found)[tid] == found[tid]@);
    law_nothing_reads_as_zero();
}

/// Nothing else is listed: each thread in the result for `entries` is the thread of an entry.
pub proof fn law_only_entries_are_listed(
    entries: Seq<(String, Option<String>)>,
    found: Map<u64, String>,
    tid: u64,
)
    requires
        names(found) == threads(entries_of(entries)),
        found.contains_key(tid),
    ensures
        exists|i: int|
            0 <= i < entries.len() && text::number((#[trigger] entries[i]).0@) == Some(tid),
{
    let all = entries_of(entries);
    assert(names(found).contains_key(tid));
    law_threads_are_listed(all, tid);
    let i = choose|i: int|
        0 <= i < all.len() && text::number((#[trigger] all[i]).0) == Some(tid);
    assert(all[i].0 == entries[i].0@);
}

} // verus!
