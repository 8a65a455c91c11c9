//! What holds of the names and of the order of what is on disk, told by the names themselves.

use vstd::prelude::*;

use crate::collector::spool::{
    batches_in, batches_of, extension, name_of, next_number, other_boots, stem, BootDir, SpooledView, DIGITS,
};
use crate::text::{
    all_digits, digit, digits_value, is_digit, last_index, lemma_last_index, parsed_u64, texts, zero_padded,
};

verus! {

/// Whether a name is that of a batch: something, and `.pb` behind it.
pub open spec fn ends_in_pb(name: Seq<char>) -> bool {
    &&& name.len() > 3
    &&& name[name.len() - 3] == '.'
    &&& name[name.len() - 2] == 'p'
    &&& name[name.len() - 1] == 'b'
}

proof fn lemma_extension(name: Seq<char>)
    ensures
        extension(name) == Some("pb"@) <==> ends_in_pb(name),
{
    reveal_strlit("pb");
    reveal_strlit("..");
    lemma_last_index(name, '.');
    let k = last_index(name, '.');
    if ends_in_pb(name) {
        assert(name[name.len() - 3] == '.' && name[name.len() - 2] != '.' && name[name.len() - 1] != '.');
        assert(k == name.len() - 3) by {
            if k < name.len() - 3 {
                assert(name[name.len() - 3] != '.');
            }
            if k == name.len() - 2 || k == name.len() - 1 {
                assert(name[k] == '.');
            }
        }
        assert(".."@.len() == 2);
        assert(name.skip(k + 1) =~= "pb"@);
    }
    if extension(name) == Some("pb"@) {
        let e = name.skip(k + 1);
        assert(e == "pb"@ && e.len() == 2);
        assert(e[0] == 'p' && e[1] == 'b');
        assert(name[k + 1] == e[0] && name[k + 2] == e[1]);
    }
}

/// The batches in a directory are its files whose names end in `.pb`, in their order.
pub proof fn law_batches_are_the_files_so_named(boot: Seq<char>, files: Seq<Seq<char>>, same_boot: bool)
    ensures
        batches_in(boot, files, same_boot) == files.filter(|name: Seq<char>| ends_in_pb(name)).map_values(
            |name: Seq<char>| SpooledView { boot, file: name, same_boot },
        ),
    decreases files.len(),
{
    reveal(Seq::filter);
    let keep = |name: Seq<char>| ends_in_pb(name);
    let as_view = |name: Seq<char>| SpooledView { boot, file: name, same_boot };
    if files.len() > 0 {
        law_batches_are_the_files_so_named(boot, files.drop_last(), same_boot);
        lemma_extension(files.last());
        let front = files.drop_last().filter(keep);
        assert(front.push(files.last()).map_values(as_view) =~= front.map_values(as_view).push(
            as_view(files.last()),
        ));
    } else {
        assert(batches_in(boot, files, same_boot) =~= files.filter(keep).map_values(as_view));
    }
}

/// Whether an entry is a directory with batches of this boot, or else with those of another one.
pub open spec fn is_dir_of(d: BootDir, boot_id: Seq<char>, same_boot: bool) -> bool {
    d.is_dir && (same_boot ==> d.name@ == boot_id) && (!same_boot ==> d.name@ != boot_id)
}

/// The batches that are read are those in the directories, directory by directory in their order, each
/// said to be of the boot that its directory is named for: first what is of this boot, then the rest.
pub proof fn law_batches_are_read_directory_by_directory(dirs: Seq<BootDir>, boot_id: Seq<char>, same_boot: bool)
    ensures
        batches_of(dirs, boot_id, same_boot) == dirs.filter(|d: BootDir| is_dir_of(d, boot_id, same_boot)).map_values(
            |d: BootDir| batches_in(d.name@, texts(d.files@), same_boot),
        ).flatten(),
    decreases dirs.len(),
{
    reveal(Seq::filter);
    let keep = |d: BootDir| is_dir_of(d, boot_id, same_boot);
    let batches = |d: BootDir| batches_in(d.name@, texts(d.files@), same_boot);
    let parts = dirs.filter(keep).map_values(batches);
    parts.lemma_flatten_and_flatten_alt_are_equivalent();
    if dirs.len() > 0 {
        law_batches_are_read_directory_by_directory(dirs.drop_last(), boot_id, same_boot);
        let front = dirs.drop_last().filter(keep);
        front.map_values(batches).lemma_flatten_and_flatten_alt_are_equivalent();
        if keep(dirs.last()) {
            assert(parts =~= front.map_values(batches).push(batches(dirs.last())));
            assert(parts.drop_last() =~= front.map_values(batches));
            assert(parts.last() == batches(dirs.last()));
        } else {
            assert(parts =~= front.map_values(batches));
        }
    } else {
        assert(parts =~= Seq::<Seq<SpooledView>>::empty());
    }
}

/// The directories that are retired are those of other boots, all of them.
pub proof fn law_other_boots_are_retired(dirs: Seq<BootDir>, boot_id: Seq<char>)
    ensures
        other_boots(dirs, boot_id) == dirs.filter(|d: BootDir| is_dir_of(d, boot_id, false)).map_values(
            |d: BootDir| d.name@,
        ),
    decreases dirs.len(),
{
    reveal(Seq::filter);
    let keep = |d: BootDir| is_dir_of(d, boot_id, false);
    let name = |d: BootDir| d.name@;
    if dirs.len() > 0 {
        law_other_boots_are_retired(dirs.drop_last(), boot_id);
        let front = dirs.drop_last().filter(keep);
        assert(front.push(dirs.last()).map_values(name) =~= front.map_values(name).push(name(dirs.last())));
    } else {
        assert(other_boots(dirs, boot_id) =~= dirs.filter(keep).map_values(name));
    }
}

spec fn ten_to(n: nat) -> nat
    decreases n,
{
    if n == 0 {
        1
    } else {
        10 * ten_to((n - 1) as nat)
    }
}

proof fn lemma_padded_value(n: nat, width: nat)
    requires
        n < ten_to(width),
    ensures
        zero_padded(n, width).len() == width,
        all_digits(zero_padded(n, width)),
        digits_value(zero_padded(n, width)) == n,
    decreases width,
{
    if width > 0 {
        let front = zero_padded(n / 10, (width - 1) as nat);
        lemma_padded_value(n / 10, (width - 1) as nat);
        let c = digit(n % 10);
        let all = zero_padded(n, width);
        assert('0' <= c <= '9' && c as u32 - 48 == n % 10);
        assert(all.drop_last() =~= front);
        assert forall|i: int| 0 <= i < all.len() implies is_digit(#[trigger] all[i]) by {
            if i < front.len() {
                assert(is_digit(front[i]));
            }
        }
    }
}

proof fn lemma_number_of_name(n: u64)
    ensures
        parsed_u64(stem(name_of(n))) == Some(n),
        ends_in_pb(name_of(n)),
{
    reveal_strlit(".pb");
    reveal_strlit("..");
    assert(ten_to(20) > u64::MAX) by {
        reveal_with_fuel(ten_to, 21);
    }
    lemma_padded_value(n as nat, DIGITS as nat);
    let digits = zero_padded(n as nat, DIGITS as nat);
    let name = name_of(n);
    assert(name.len() == 23 && name[20] == '.' && name[21] == 'p' && name[22] == 'b');
    lemma_last_index(name, '.');
    let k = last_index(name, '.');
    assert(k == 20) by {
        if k < 20 {
            assert(name[20] != '.');
        }
        if k > 20 {
            assert(name[k] == '.');
        }
    }
    assert(".."@.len() == 2);
    assert(stem(name) =~= digits);
    assert(is_digit(digits[0]));
}

/// A batch that was written under a number keeps that number: the numbering goes on behind every one
/// that was given away, and no farther than behind the largest number there is.
pub proof fn law_no_number_is_given_twice(names: Seq<Seq<char>>)
    ensures
        forall|i: int, n: u64| 0 <= i < names.len() && #[trigger] name_of(n) == #[trigger] names[i] ==> n < next_number(names),
        next_number(names) > 0 ==> exists|i: int|
            0 <= i < names.len() && parsed_u64(stem(#[trigger] names[i])) == Some((next_number(names) - 1) as u64),
        next_number(names) >= 0,
    decreases names.len(),
{
    if names.len() > 0 {
        let front = names.drop_last();
        law_no_number_is_given_twice(front);
        assert forall|i: int, n: u64| 0 <= i < names.len() && #[trigger] name_of(n) == #[trigger] names[i] implies n
            < next_number(names) by {
            if i < front.len() {
                assert(front[i] == names[i]);
            } else {
                lemma_number_of_name(n);
            }
        }
        if next_number(names) > 0 {
            if next_number(names) == next_number(front) {
                let i = choose|i: int|
                    0 <= i < front.len() && parsed_u64(stem(#[trigger] front[i])) == Some(
                        (next_number(front) - 1) as u64,
                    );
                assert(names[i] == front[i]);
            } else {
                assert(names[names.len() - 1] == names.last());
            }
        }
    }
}

/// What a batch is written under is found again as a batch.
pub proof fn law_written_batches_are_found(n: u64)
    ensures
        ends_in_pb(name_of(n)),
{
    lemma_number_of_name(n);
}

} // verus!
