//! Spilling to disk: how files are named, and in which order they are read back.
//!
//! A boot has a directory, and a batch is a file in it. File names are numbers with leading zeros, so
//! that the order of the names is the order of arrival, and the directory needs no index.

use vstd::prelude::*;
use vstd::utf8::{encode_utf8, is_ascii_chars, is_ascii_chars_encode_utf8};

use crate::bytes::bytes_before;
use crate::otlp::proto::LogsRequest;
use crate::store::order::{alphabetical, sort_texts};
use crate::text::{
    chars_of, digit, find_last, last_index, lemma_last_index, pad_with_zeros, parse_u64, parsed_u64,
    same_text, text_before, texts, zero_padded,
};

verus! {

/// The digits of a file's number.
pub const DIGITS: u32 = 20;

/// The name of the file with this number.
pub open spec fn name_of(seq: u64) -> Seq<char> {
    zero_padded(seq as nat, DIGITS as nat) + ".pb"@
}

/// The name of the file with this number.
pub fn file_name(seq: u64) -> (r: String)
    ensures
        r@ == name_of(seq),
{
    let mut out = pad_with_zeros(seq, DIGITS);
    out.append(".pb");
    out
}

/// The name a batch is written under before it is renamed into place.
pub fn temporary_name(seq: u64) -> (r: String)
    ensures
        r@ == zero_padded(seq as nat, DIGITS as nat) + ".tmp"@,
{
    let mut out = pad_with_zeros(seq, DIGITS);
    out.append(".tmp");
    out
}

/// The names in a directory in the order in which they are read.
pub fn listing(names: Vec<String>) -> (r: Vec<String>)
    ensures
        texts(r@) == alphabetical(texts(names@)),
{
    let mut names = names;
    sort_texts(&mut names);
    names
}

/// A file name without its extension. A point at the front starts no extension.
pub open spec fn stem(name: Seq<char>) -> Seq<char> {
    if last_index(name, '.') > 0 && name != ".."@ {
        name.take(last_index(name, '.'))
    } else {
        name
    }
}

/// The extension of a file name, if it has one.
pub open spec fn extension(name: Seq<char>) -> Option<Seq<char>> {
    if last_index(name, '.') > 0 && name != ".."@ {
        Some(name.skip(last_index(name, '.') + 1))
    } else {
        None
    }
}

/// A file name taken apart.
fn split_name(name: &str) -> (r: (String, Option<String>))
    ensures
        r.0@ == stem(name@),
        match extension(name@) {
            Some(e) => r.1 matches Some(s) && s@ == e,
            None => r.1 is None,
        },
{
    let cs = chars_of(name);
    proof {
        lemma_last_index(name@, '.');
    }
    match find_last(cs.as_slice(), '.') {
        None => (name.to_owned(), None),
        Some(at) => if at == 0 || same_text(name, "..") {
            (name.to_owned(), None)
        } else {
            let head = name.substring_char(0, at);
            let tail = name.substring_char(at + 1, cs.len());
            proof {
                assert(head@ =~= name@.take(at as int));
                assert(tail@ =~= name@.skip(at + 1));
            }
            (head.to_owned(), Some(tail.to_owned()))
        },
    }
}

/// Whether a file is a batch: what the collector did not write is left alone.
pub fn is_batch(name: &str) -> (r: bool)
    ensures
        r == (extension(name@) == Some("pb"@)),
{
    match split_name(name).1 {
        Some(e) => same_text(e.as_str(), "pb"),
        None => false,
    }
}

/// One more than the largest number that a file name is, or zero where none is one.
pub open spec fn next_number(names: Seq<Seq<char>>) -> int
    decreases names.len(),
{
    if names.len() == 0 {
        0
    } else {
        let front = next_number(names.drop_last());
        match parsed_u64(stem(names.last())) {
            Some(n) => if n + 1 > front {
                n + 1
            } else {
                front
            },
            None => front,
        }
    }
}

/// Where the numbering goes on: behind what an earlier run of this boot wrote.
pub fn next_seq(names: &Vec<String>) -> (r: u64)
    requires
        next_number(texts(names@)) <= u64::MAX,
    ensures
        r == next_number(texts(names@)),
{
    let ghost all = texts(names@);
    let mut next: u64 = 0;
    let mut i: usize = 0;
    assert(all.take(0) =~= Seq::<Seq<char>>::empty());
    while i < names.len()
        invariant
            i <= names@.len(),
            all == texts(names@),
            next_number(all) <= u64::MAX,
            next == next_number(all.take(i as int)),
        decreases names.len() - i,
    {
        proof {
            assert(all.take(i + 1).drop_last() =~= all.take(i as int));
            assert(all.take(i + 1).last() == names@[i as int]@);
            lemma_next_number_grows(all, i + 1);
        }
        match parse_u64(split_name(names[i].as_str()).0.as_str()) {
            Some(n) => {
                if n + 1 > next {
                    next = n + 1;
                }
            },
            None => {},
        }
        i += 1;
    }
    assert(all.take(i as int) =~= all);
    next
}

proof fn lemma_next_number_grows(names: Seq<Seq<char>>, k: int)
    requires
        0 <= k <= names.len(),
    ensures
        0 <= next_number(names.take(k)) <= next_number(names),
    decreases names.len(),
{
    if k == names.len() {
        assert(names.take(k) =~= names);
        if k > 0 {
            lemma_next_number_grows(names.drop_last(), 0);
            assert(names.drop_last().take(0) =~= Seq::<Seq<char>>::empty());
        }
    } else {
        lemma_next_number_grows(names.drop_last(), k);
        assert(names.drop_last().take(k) =~= names.take(k));
    }
}

/// One entry of the spool's directory, with the names in it where it is a directory itself, sorted.
#[derive(Debug, PartialEq, Eq)]
pub struct BootDir {
    pub name: String,
    pub is_dir: bool,
    pub files: Vec<String>,
}

/// A batch to read.
#[derive(Debug, PartialEq, Eq)]
pub struct SpooledFile {
    pub boot: String,
    pub file: String,
    /// Whether it is of this boot. The boot times in another one's batches mean nothing now.
    pub same_boot: bool,
}

/// What a [`SpooledFile`] says.
pub struct SpooledView {
    pub boot: Seq<char>,
    pub file: Seq<char>,
    pub same_boot: bool,
}

impl SpooledFile {
    pub open spec fn view(self) -> SpooledView {
        SpooledView { boot: self.boot@, file: self.file@, same_boot: self.same_boot }
    }
}

/// A batch that was read back, and the file it is in. The file stays until the batch was delivered: a
/// crash before that sends the batch again, and the receiver stores it once.
#[derive(Debug, PartialEq, Eq)]
pub struct Spooled {
    pub request: LogsRequest,
    pub file: SpooledFile,
}

/// Whether both are one file.
pub open spec fn same_file(a: SpooledView, b: SpooledView) -> bool {
    a.boot == b.boot && a.file == b.file
}

impl SpooledFile {
    /// Whether both are one file. The name is what tells most files apart, so it is looked at first.
    pub fn is_same(&self, other: &SpooledFile) -> (r: bool)
        ensures
            r == same_file(self.view(), other.view()),
    {
        same_text(self.file.as_str(), other.file.as_str()) && same_text(self.boot.as_str(), other.boot.as_str())
    }
}

pub open spec fn spooled_views(s: Seq<SpooledFile>) -> Seq<SpooledView> {
    s.map_values(|f: SpooledFile| f.view())
}

/// The batches among the files of one directory.
pub open spec fn batches_in(boot: Seq<char>, files: Seq<Seq<char>>, same_boot: bool) -> Seq<SpooledView>
    decreases files.len(),
{
    if files.len() == 0 {
        Seq::empty()
    } else {
        let front = batches_in(boot, files.drop_last(), same_boot);
        if extension(files.last()) == Some("pb"@) {
            front.push(SpooledView { boot, file: files.last(), same_boot })
        } else {
            front
        }
    }
}

/// The batches of this boot, or of the others, in the order of the directories.
pub open spec fn batches_of(dirs: Seq<BootDir>, boot_id: Seq<char>, same_boot: bool) -> Seq<SpooledView>
    decreases dirs.len(),
{
    if dirs.len() == 0 {
        Seq::empty()
    } else {
        let front = batches_of(dirs.drop_last(), boot_id, same_boot);
        let last = dirs.last();
        if last.is_dir && (last.name@ == boot_id) == same_boot {
            front + batches_in(last.name@, texts(last.files@), same_boot)
        } else {
            front
        }
    }
}

fn push_batches(out: &mut Vec<SpooledFile>, dir: &BootDir, same_boot: bool)
    ensures
        spooled_views(final(out)@) == spooled_views(old(out)@) + batches_in(dir.name@, texts(dir.files@), same_boot),
{
    let ghost before = spooled_views(out@);
    let ghost files = texts(dir.files@);
    let mut i: usize = 0;
    proof {
        assert(files.take(0) =~= Seq::<Seq<char>>::empty());
        assert(before + Seq::<SpooledView>::empty() =~= before);
    }
    while i < dir.files.len()
        invariant
            i <= dir.files@.len(),
            files == texts(dir.files@),
            before == spooled_views(old(out)@),
            spooled_views(out@) == before + batches_in(dir.name@, files.take(i as int), same_boot),
        decreases dir.files.len() - i,
    {
        let ghost now = spooled_views(out@);
        proof {
            assert(files.take(i + 1).drop_last() =~= files.take(i as int));
            assert(files.take(i + 1).last() == dir.files@[i as int]@);
        }
        if is_batch(dir.files[i].as_str()) {
            let entry = SpooledFile { boot: dir.name.clone(), file: dir.files[i].clone(), same_boot };
            out.push(entry);
            assert(spooled_views(out@) =~= now.push(entry.view()));
            assert(spooled_views(out@) =~= before + batches_in(dir.name@, files.take(i + 1), same_boot));
        }
        i += 1;
    }
    assert(files.take(i as int) =~= files);
}

/// The batches to read: those of this boot in the order of their arrival, which can be corrected, and
/// behind them what other boots left.
pub fn read_order(dirs: &Vec<BootDir>, boot_id: &str) -> (r: Vec<SpooledFile>)
    ensures
        spooled_views(r@) == batches_of(dirs@, boot_id@, true) + batches_of(dirs@, boot_id@, false),
{
    let mut own: Vec<SpooledFile> = Vec::new();
    let mut foreign: Vec<SpooledFile> = Vec::new();
    let mut i: usize = 0;
    proof {
        assert(dirs@.take(0) =~= Seq::<BootDir>::empty());
        assert(spooled_views(own@) =~= Seq::<SpooledView>::empty());
        assert(spooled_views(foreign@) =~= Seq::<SpooledView>::empty());
    }
    while i < dirs.len()
        invariant
            i <= dirs@.len(),
            spooled_views(own@) == batches_of(dirs@.take(i as int), boot_id@, true),
            spooled_views(foreign@) == batches_of(dirs@.take(i as int), boot_id@, false),
        decreases dirs.len() - i,
    {
        proof {
            assert(dirs@.take(i + 1).drop_last() =~= dirs@.take(i as int));
            assert(dirs@.take(i + 1).last() == dirs@[i as int]);
        }
        if dirs[i].is_dir {
            if same_text(dirs[i].name.as_str(), boot_id) {
                push_batches(&mut own, &dirs[i], true);
            } else {
                push_batches(&mut foreign, &dirs[i], false);
            }
        }
        i += 1;
    }
    assert(dirs@.take(i as int) =~= dirs@);
    let ghost first = spooled_views(own@);
    let ghost second = spooled_views(foreign@);
    own.append(&mut foreign);
    assert(spooled_views(own@) =~= first + second);
    own
}

/// The names of the directories of other boots.
pub open spec fn other_boots(dirs: Seq<BootDir>, boot_id: Seq<char>) -> Seq<Seq<char>>
    decreases dirs.len(),
{
    if dirs.len() == 0 {
        Seq::empty()
    } else {
        let front = other_boots(dirs.drop_last(), boot_id);
        if dirs.last().is_dir && dirs.last().name@ != boot_id {
            front.push(dirs.last().name@)
        } else {
            front
        }
    }
}

/// The directories to remove once what was in them has been dealt with.
pub fn retired(dirs: &Vec<BootDir>, boot_id: &str) -> (r: Vec<String>)
    ensures
        texts(r@) == other_boots(dirs@, boot_id@),
{
    let mut out: Vec<String> = Vec::new();
    let mut i: usize = 0;
    proof {
        assert(dirs@.take(0) =~= Seq::<BootDir>::empty());
        assert(texts(out@) =~= Seq::<Seq<char>>::empty());
    }
    while i < dirs.len()
        invariant
            i <= dirs@.len(),
            texts(out@) == other_boots(dirs@.take(i as int), boot_id@),
        decreases dirs.len() - i,
    {
        let ghost before = texts(out@);
        proof {
            assert(dirs@.take(i + 1).drop_last() =~= dirs@.take(i as int));
            assert(dirs@.take(i + 1).last() == dirs@[i as int]);
        }
        if dirs[i].is_dir && !same_text(dirs[i].name.as_str(), boot_id) {
            out.push(dirs[i].name.clone());
            assert(texts(out@) =~= before.push(dirs@[i as int].name@));
        }
        i += 1;
    }
    assert(dirs@.take(i as int) =~= dirs@);
    out
}

proof fn lemma_padded_len(n: nat, width: nat)
    ensures
        zero_padded(n, width).len() == width,
        is_ascii_chars(zero_padded(n, width)),
    decreases width,
{
    if width > 0 {
        lemma_padded_len(n / 10, (width - 1) as nat);
    }
}

/// Comparing texts of one length compares what comes before the last character first.
proof fn lemma_text_before_push(a: Seq<char>, b: Seq<char>, x: char, y: char)
    requires
        a.len() == b.len(),
    ensures
        text_before(a.push(x), b.push(y)) <==> text_before(a, b) || (a == b && x < y),
    decreases a.len(),
{
    let p = a.push(x);
    let q = b.push(y);
    reveal_with_fuel(text_before, 2);
    if a.len() == 0 {
        assert(a =~= b);
        assert(p.drop_first() =~= Seq::<char>::empty());
        assert(q.drop_first() =~= Seq::<char>::empty());
    } else {
        lemma_text_before_push(a.drop_first(), b.drop_first(), x, y);
        assert(p.drop_first() =~= a.drop_first().push(x));
        assert(q.drop_first() =~= b.drop_first().push(y));
        if a == b {
            lemma_not_before_itself(a);
        } else if a[0] == b[0] && a.drop_first() == b.drop_first() {
            assert(a =~= seq![a[0]] + a.drop_first());
            assert(b =~= seq![b[0]] + b.drop_first());
        }
    }
}

proof fn lemma_not_before_itself(a: Seq<char>)
    ensures
        !text_before(a, a),
    decreases a.len(),
{
    if a.len() > 0 {
        lemma_not_before_itself(a.drop_first());
    }
}

spec fn pow10(n: nat) -> nat
    decreases n,
{
    if n == 0 {
        1
    } else {
        10 * pow10((n - 1) as nat)
    }
}

proof fn lemma_padded_order(a: nat, b: nat, width: nat)
    requires
        a < pow10(width),
        b < pow10(width),
    ensures
        text_before(zero_padded(a, width), zero_padded(b, width)) <==> a < b,
        zero_padded(a, width) == zero_padded(b, width) <==> a == b,
    decreases width,
{
    if width > 0 {
        let w = (width - 1) as nat;
        let x = zero_padded(a / 10, w);
        let y = zero_padded(b / 10, w);
        lemma_padded_order(a / 10, b / 10, w);
        lemma_padded_len(a / 10, w);
        lemma_padded_len(b / 10, w);
        lemma_text_before_push(x, y, digit(a % 10), digit(b % 10));
        if zero_padded(a, width) == zero_padded(b, width) {
            assert(x =~= zero_padded(a, width).drop_last());
            assert(y =~= zero_padded(b, width).drop_last());
            assert(zero_padded(a, width).last() == digit(a % 10));
            assert(zero_padded(b, width).last() == digit(b % 10));
        }
    }
}

proof fn lemma_bytes_order_as_texts(a: Seq<char>, b: Seq<char>, x: Seq<u8>, y: Seq<u8>)
    requires
        a.len() == x.len(),
        b.len() == y.len(),
        forall|i: int| 0 <= i < a.len() ==> #[trigger] a[i] as int == x[i] as int,
        forall|i: int| 0 <= i < b.len() ==> #[trigger] b[i] as int == y[i] as int,
    ensures
        text_before(a, b) <==> bytes_before(x, y),
    decreases a.len(),
{
    if a.len() > 0 && b.len() > 0 {
        assert forall|i: int| 0 <= i < a.drop_first().len() implies #[trigger] a.drop_first()[i] as int
            == x.drop_first()[i] as int by {
            assert(a[i + 1] as int == x[i + 1] as int);
        }
        assert forall|i: int| 0 <= i < b.drop_first().len() implies #[trigger] b.drop_first()[i] as int
            == y.drop_first()[i] as int by {
            assert(b[i + 1] as int == y[i + 1] as int);
        }
        lemma_bytes_order_as_texts(a.drop_first(), b.drop_first(), x.drop_first(), y.drop_first());
        assert(a[0] as int == x[0] as int && b[0] as int == y[0] as int);
    }
}

/// The order of the file names is the order of their numbers, so a directory in the order of its
/// names is in the order of arrival.
pub proof fn law_names_sort_in_arrival_order(a: u64, b: u64)
    ensures
        bytes_before(encode_utf8(name_of(a)), encode_utf8(name_of(b))) <==> a < b,
        name_of(a) == name_of(b) <==> a == b,
{
    let width = DIGITS as nat;
    let x = zero_padded(a as nat, width);
    let y = zero_padded(b as nat, width);
    assert(pow10(20) > u64::MAX) by {
        reveal_with_fuel(pow10, 21);
    }
    lemma_padded_order(a as nat, b as nat, width);
    lemma_padded_len(a as nat, width);
    lemma_padded_len(b as nat, width);
    reveal_strlit(".pb");
    let suffix = ".pb"@;
    lemma_text_before_push(x, y, suffix[0], suffix[0]);
    lemma_text_before_push(x.push(suffix[0]), y.push(suffix[0]), suffix[1], suffix[1]);
    lemma_text_before_push(
        x.push(suffix[0]).push(suffix[1]),
        y.push(suffix[0]).push(suffix[1]),
        suffix[2],
        suffix[2],
    );
    assert(name_of(a) =~= x.push(suffix[0]).push(suffix[1]).push(suffix[2]));
    assert(name_of(b) =~= y.push(suffix[0]).push(suffix[1]).push(suffix[2]));
    if name_of(a) == name_of(b) {
        assert(x =~= name_of(a).take(20));
        assert(y =~= name_of(b).take(20));
    }
    assert(is_ascii_chars(name_of(a)));
    assert(is_ascii_chars(name_of(b)));
    is_ascii_chars_encode_utf8(name_of(a));
    is_ascii_chars_encode_utf8(name_of(b));
    lemma_bytes_order_as_texts(name_of(a), name_of(b), encode_utf8(name_of(a)), encode_utf8(name_of(b)));
}

} // verus!
