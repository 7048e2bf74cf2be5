//! Text and properties: how numbers and bytes read, and what the database
//! says of itself.

use vstd::prelude::*;

use crate::column_family::{lemma_prefixed_parts, prefixed, DEFAULT_CF_ID};
use crate::db::properties::{format_key_for_display, level_row, level_rows};
use crate::db::snapshot::Snapshot;
use crate::db::Db;
use crate::engine::store::RegolithEngine;
use crate::error::{Error, Result};
use crate::history::{numbered, Op};
use crate::text;
use crate::text::{byte_list_items, decimal_text, hex_text};

verus! {

/// A number reads as its digits: one digit is the character that many places
/// after `0`, and ten times a number and a digit more reads as the number and
/// then the digit.
pub proof fn law_decimal(n: u64, d: u64, whole: u64, a: String, b: String, c: String)
    requires
        1 <= n,
        d < 10,
        whole == n * 10 + d,
        call_ensures(text::decimal, (n,), a),
        call_ensures(text::decimal, (d,), b),
        call_ensures(text::decimal, (whole,), c),
    ensures
        b@.len() == 1 && b@[0] as int == 48 + d,
        c@ == a@ + b@,
{
    assert(whole / 10 == n && whole % 10 == d);
    assert(decimal_text(whole as nat) == decimal_text(n as nat).push(text::digit(d as nat)));
    assert(a@.push(b@[0]) =~= a@ + b@);
}

/// Padding puts what is missing of the width in front, and nothing where
/// nothing is missing.
pub proof fn law_padding(n: u64, width: usize, plain: String, padded: String, line: &str, aligned: String)
    requires
        call_ensures(text::decimal, (n,), plain),
        call_ensures(text::zero_pad, (n, width), padded),
        call_ensures(text::align_right, (line, width), aligned),
    ensures
        padded@.len() == (if plain@.len() < width {
            width as int
        } else {
            plain@.len() as int
        }),
        padded@.skip(padded@.len() - plain@.len()) == plain@,
        forall|i: int| 0 <= i < padded@.len() - plain@.len() ==> #[trigger] padded@[i] == '0',
        aligned@.len() == (if line@.len() < width {
            width as int
        } else {
            line@.len() as int
        }),
        aligned@.skip(aligned@.len() - line@.len()) == line@,
        forall|i: int| 0 <= i < aligned@.len() - line@.len() ==> #[trigger] aligned@[i] == ' ',
{
}

/// Bytes in hexadecimal: two characters for each, and a run of bytes reads as
/// its parts do, one after the other.
pub proof fn law_hex(a: &[u8], b: &[u8], both: &[u8], x: String, y: String, z: String)
    requires
        both@ == a@ + b@,
        call_ensures(text::hex, (a,), x),
        call_ensures(text::hex, (b,), y),
        call_ensures(text::hex, (both,), z),
    ensures
        x@.len() == 2 * a@.len(),
        z@ == x@ + y@,
        a@.len() == 1 ==> ({
            let (high, low) = ((a@[0] / 16) as int, (a@[0] % 16) as int);
            &&& x@[0] as int == (if high < 10 {
                48 + high
            } else {
                87 + high
            })
            &&& x@[1] as int == (if low < 10 {
                48 + low
            } else {
                87 + low
            })
        }),
{
    lemma_hex_len(a@);
    lemma_hex_join(a@, b@);
    if a@.len() == 1 {
        reveal_with_fuel(hex_text, 2);
        assert(a@.drop_last() =~= Seq::<u8>::empty());
    }
}

proof fn lemma_hex_len(s: Seq<u8>)
    ensures
        hex_text(s).len() == 2 * s.len(),
    decreases s.len(),
{
    if s.len() > 0 {
        lemma_hex_len(s.drop_last());
    }
}

proof fn lemma_hex_join(a: Seq<u8>, b: Seq<u8>)
    ensures
        hex_text(a + b) == hex_text(a) + hex_text(b),
    decreases b.len(),
{
    if b.len() == 0 {
        assert(a + b =~= a);
        assert(hex_text(a) + hex_text(b) =~= hex_text(a));
    } else {
        assert((a + b).drop_last() =~= a + b.drop_last());
        lemma_hex_join(a, b.drop_last());
        assert(hex_text(a + b) =~= hex_text(a) + hex_text(b));
    }
}

/// A number that was written out is read back.
pub proof fn law_decimal_reads_back(n: u64, written: String, line: &str, r: Option<usize>)
    requires
        n <= usize::MAX,
        call_ensures(text::decimal, (n,), written),
        line@ == written@,
        call_ensures(text::parse_count, (line, 0), r),
    ensures
        r == Some(n as usize),
{
    assert(line@.skip(0) =~= line@);
    lemma_digits(n as nat);
}

proof fn lemma_digits(n: nat)
    ensures
        decimal_text(n).len() > 0,
        text::all_digits(decimal_text(n)),
        text::number_of(decimal_text(n)) == n,
    decreases n,
{
    let t = decimal_text(n);
    if n < 10 {
        assert(t.drop_last() =~= Seq::<char>::empty());
        reveal_with_fuel(text::number_of, 2);
        assert(t.last() as int == 48 + n);
    } else {
        lemma_digits(n / 10);
        assert(t.drop_last() =~= decimal_text(n / 10));
        assert(t.last() as int == 48 + n % 10);
        assert(text::all_digits(t)) by {
            assert forall|i: int| 0 <= i < t.len() implies '0' <= (#[trigger] t[i]) <= '9' by {
                if i < t.len() - 1 {
                    assert(t[i] == decimal_text(n / 10)[i]);
                }
            }
        }
    }
}

/// Taking a snapshot makes one more that is counted, and letting go of it one
/// less.
pub proof fn law_snapshots_are_counted(
    db: &mut Db,
    s: Snapshot,
    name: &str,
    earlier: Option<u64>,
    later: Option<u64>,
    again: &mut Db,
    released: Option<u64>,
)
    requires
        old(db).wf(),
        old(db).live_snapshots() < u64::MAX,
        name@ == "regolith.num-snapshots"@,
        call_ensures(Db::get_int_property, (&*old(db), name), earlier),
        call_ensures(Db::snapshot, (db,), s),
        call_ensures(Db::get_int_property, (&*final(db), name), later),
        *old(again) == *final(db),
        call_ensures(Db::release, (again, s), ()),
        call_ensures(Db::get_int_property, (&*final(again), name), released),
    ensures
        earlier matches Some(n) && later matches Some(m) && m == n + 1,
        released == earlier,
{
    reveal_strlit("regolith.num-snapshots");
    reveal_strlit("regolith.num-files-at-level");
    reveal_strlit("regolith.total-sst-files-size");
    reveal_strlit("regolith.estimate-live-data-size");
    reveal_strlit("regolith.cur-size-active-mem-table");
    reveal_strlit("regolith.memtable-reserved-bytes");
    reveal_strlit("regolith.cur-size-all-mem-tables");
    reveal_strlit("regolith.num-entries-active-mem-table");
    reveal_strlit("regolith.estimate-num-keys");
    reveal_strlit("regolith.block-cache-usage");
    reveal_strlit("regolith.pinned-metadata-bytes");
    let text = name@;
    assert(text[13] == 's');
    let head = "regolith.num-files-at-level"@;
    assert(head[13] == 'f');
    if head.is_prefix_of(text) {
        assert(head[13] == text.subrange(0, head.len() as int)[13]);
    }
    assert("regolith.num-entries-active-mem-table"@[13] == 'e');
    assert("regolith.total-sst-files-size"@.len() != text.len());
    assert("regolith.estimate-live-data-size"@.len() != text.len());
    assert("regolith.cur-size-active-mem-table"@.len() != text.len());
    assert("regolith.memtable-reserved-bytes"@.len() != text.len());
    assert("regolith.cur-size-all-mem-tables"@.len() != text.len());
    assert("regolith.estimate-num-keys"@.len() != text.len());
    assert("regolith.block-cache-usage"@.len() != text.len());
    assert("regolith.pinned-metadata-bytes"@.len() != text.len());
}

/// The number of tables at a level is told under the level's digits.
pub proof fn law_level_files_property(
    db: Db,
    level: usize,
    digits: String,
    name: &str,
    n: Option<u64>,
    engine: &RegolithEngine,
    count: u64,
)
    requires
        db.wf(),
        level <= u64::MAX,
        call_ensures(text::decimal, (level as u64,), digits),
        name@ == "regolith.num-files-at-level"@ + digits@,
        call_ensures(Db::get_int_property, (&db, name), n),
        call_ensures(Db::engine, (&db,), engine),
        call_ensures(RegolithEngine::num_files_at_level, (engine, level), count),
    ensures
        n == Some(count),
{
    reveal_strlit("regolith.num-files-at-level");
    reveal_strlit("regolith.block-cache-usage");
    reveal_strlit("regolith.pinned-metadata-bytes");
    let head = "regolith.num-files-at-level"@;
    lemma_digits(level as nat);
    assert(head[9] == 'n');
    assert(name@[9] == 'n');
    assert("regolith.block-cache-usage"@[9] == 'b');
    assert("regolith.pinned-metadata-bytes"@[9] == 'p');
    assert(head =~= name@.subrange(0, head.len() as int));
    assert(name@.skip(head.len() as int) =~= digits@);
    assert('0' <= digits@[0] <= '9');
}

/// The size of all tables is told as it is, under both of its names.
pub proof fn law_total_size_property(
    db: Db,
    name: &str,
    n: Option<u64>,
    engine: &RegolithEngine,
    total: u64,
)
    requires
        db.wf(),
        name@ == "regolith.total-sst-files-size"@ || name@ == "regolith.estimate-live-data-size"@,
        call_ensures(Db::get_int_property, (&db, name), n),
        call_ensures(Db::engine, (&db,), engine),
        call_ensures(RegolithEngine::total_sst_size, (engine,), total),
    ensures
        n == Some(total),
{
    reveal_strlit("regolith.total-sst-files-size");
    reveal_strlit("regolith.estimate-live-data-size");
    reveal_strlit("regolith.num-files-at-level");
    reveal_strlit("regolith.block-cache-usage");
    reveal_strlit("regolith.pinned-metadata-bytes");
    let head = "regolith.num-files-at-level"@;
    assert(head[9] == 'n');
    assert("regolith.total-sst-files-size"@[9] == 't');
    assert("regolith.estimate-live-data-size"@[9] == 'e');
    assert("regolith.block-cache-usage"@[9] == 'b');
    assert("regolith.pinned-metadata-bytes"@[9] == 'p');
    if head.is_prefix_of(name@) {
        assert(head[9] == name@.subrange(0, head.len() as int)[9]);
    }
}

/// A put that stays in the memtable adds its key and value, and what goes
/// with them, to the memtable's size; a flush leaves it at nothing.
pub proof fn law_memtable_size_property(
    db: &mut Db,
    key: &[u8],
    value: &[u8],
    r: Result<()>,
    name: &str,
    earlier: Option<u64>,
    later: Option<u64>,
    again: &mut Db,
    flushed: Result<()>,
    empty: Option<u64>,
)
    requires
        old(db).wf(),
        name@ == "regolith.cur-size-active-mem-table"@,
        call_ensures(Db::get_int_property, (&*old(db), name), earlier),
        call_ensures(Db::put, (db, key, value), r),
        r is Ok,
        final(db).store().active().len() == old(db).store().active().len() + 1,
        call_ensures(Db::get_int_property, (&*final(db), name), later),
        *old(again) == *final(db),
        call_ensures(Db::flush, (again,), flushed),
        flushed is Ok,
        call_ensures(Db::get_int_property, (&*final(again), name), empty),
    ensures
        earlier matches Some(n) && (later matches Some(m) && (m < u64::MAX ==> m == n + key@.len()
            + 13 + value@.len())),
        empty == Some(0u64),
{
    reveal_strlit("regolith.cur-size-active-mem-table");
    reveal_strlit("regolith.num-files-at-level");
    reveal_strlit("regolith.block-cache-usage");
    reveal_strlit("regolith.pinned-metadata-bytes");
    reveal_strlit("regolith.total-sst-files-size");
    reveal_strlit("regolith.estimate-live-data-size");
    let head = "regolith.num-files-at-level"@;
    assert(head[9] == 'n');
    assert(name@[9] == 'c');
    assert("regolith.total-sst-files-size"@[9] == 't');
    assert("regolith.estimate-live-data-size"@[9] == 'e');
    assert("regolith.block-cache-usage"@[9] == 'b');
    assert("regolith.pinned-metadata-bytes"@[9] == 'p');
    if head.is_prefix_of(name@) {
        assert(head[9] == name@.subrange(0, head.len() as int)[9]);
    }
    let h = old(db).store().active();
    let op = Op::Put { key: prefixed(DEFAULT_CF_ID, key@), value: value@ };
    let w = numbered(seq![op], old(db).horizon() + 1);
    lemma_prefixed_parts(DEFAULT_CF_ID, key@);
    assert(w.len() == 1);
    assert(final(db).store().active() == h + w);
    assert((h + w).drop_last() =~= h);
    assert((h + w).last() == w[0]);
}

/// A stored key is shown as its user's part: in quotes where every byte of it
/// can be printed, in hexadecimal where not.
pub proof fn law_key_shown(key: &[u8], user: &[u8], shown: String, in_hex: String)
    requires
        key@.len() > 4,
        user@ == key@.skip(4),
        call_ensures(format_key_for_display, (key,), shown),
        call_ensures(text::hex, (user,), in_hex),
    ensures
        (forall|i: int| 0 <= i < user@.len() ==> 0x20 <= #[trigger] user@[i] <= 0x7e) ==> {
            &&& shown@.len() == user@.len() + 2
            &&& shown@[0] == '"' && shown@.last() == '"'
            &&& forall|i: int|
                0 <= i < user@.len() ==> #[trigger] shown@[i + 1] as int == user@[i] as int
        },
        !(forall|i: int| 0 <= i < user@.len() ==> 0x20 <= #[trigger] user@[i] <= 0x7e) ==> shown@
            == seq!['0', 'x'] + in_hex@,
{
    reveal_strlit("\"");
    reveal_strlit("0x");
    assert("0x"@ =~= seq!['0', 'x']);
}

/// An error reads as what it is and what it says.
pub proof fn law_error_text(e: &Error, r: String)
    requires
        call_ensures(Error::to_text, (e,), r),
    ensures
        match e {
            Error::InvalidArgument(m) => r@ == "invalid argument: "@ + m@,
            Error::Corruption(io) => r@ == "corruption: "@ + io.message@,
            Error::ReadOnly => r@ == "database was opened read-only"@,
            Error::Closed => r@ == "database is closed"@,
            Error::InvalidColumnFamily(m) => r@ == "invalid column family: "@ + m@,
            Error::Busy(m) => r@ == "engine busy: "@ + m@,
            Error::MergeFailed(_) => "merge operator failed for key "@.is_prefix_of(r@),
            Error::Io(io) => r@ == "I/O error: "@ + io.message@,
        },
{
    if e is MergeFailed {
        let head = "merge operator failed for key "@;
        assert(head =~= r@.subrange(0, head.len() as int));
    }
}

/// Bytes as a list: brackets round the numbers, and a run of bytes lists as
/// its parts do, a comma and a blank in between.
pub proof fn law_byte_list(a: &[u8], b: &[u8], both: &[u8], x: String, y: String, z: String)
    requires
        a@.len() > 0,
        b@.len() > 0,
        both@ == a@ + b@,
        call_ensures(text::byte_list, (a,), x),
        call_ensures(text::byte_list, (b,), y),
        call_ensures(text::byte_list, (both,), z),
    ensures
        z@ == x@.drop_last() + seq![',', ' '] + y@.skip(1),
{
    reveal_strlit("[");
    reveal_strlit("]");
    reveal_strlit(", ");
    lemma_items_join(a@, b@);
    assert(", "@ =~= seq![',', ' ']);
    assert(x@.drop_last() =~= "["@ + byte_list_items(a@));
    assert(y@.skip(1) =~= byte_list_items(b@) + "]"@);
    assert(z@ =~= x@.drop_last() + seq![',', ' '] + y@.skip(1));
}

/// A list of one byte is its number in brackets, and that of none the
/// brackets alone.
pub proof fn law_byte_list_of_one(s: &[u8], n: u64, number: String, r: String)
    requires
        s@.len() <= 1,
        s@.len() == 1 ==> n == s@[0],
        call_ensures(text::decimal, (n,), number),
        call_ensures(text::byte_list, (s,), r),
    ensures
        s@.len() == 1 ==> r@ == seq!['['] + number@ + seq![']'],
        s@.len() == 0 ==> r@ == seq!['[', ']'],
{
    reveal_strlit("[");
    reveal_strlit("]");
    assert("["@ =~= seq!['[']);
    assert("]"@ =~= seq![']']);
    if s@.len() == 0 {
        assert(r@ =~= seq!['[', ']']);
    }
}

proof fn lemma_items_join(a: Seq<u8>, b: Seq<u8>)
    requires
        a.len() > 0,
        b.len() > 0,
    ensures
        byte_list_items(a + b) == byte_list_items(a) + ", "@ + byte_list_items(b),
    decreases b.len(),
{
    let whole = a + b;
    if b.len() == 1 {
        assert(whole.drop_last() =~= a);
    } else {
        lemma_items_join(a, b.drop_last());
        assert(whole.drop_last() =~= a + b.drop_last());
        assert(byte_list_items(whole) =~= byte_list_items(a) + ", "@ + byte_list_items(b));
    }
}

/// Text is taken for a number only where it is digits, a plus sign before
/// them aside; and a further digit multiplies what they write by ten.
pub proof fn law_only_digits_are_read(
    short: &str,
    long: &str,
    d: char,
    r: Option<usize>,
    more: Option<usize>,
)
    requires
        long@ == short@.push(d),
        call_ensures(text::parse_count, (short, 0), r),
        call_ensures(text::parse_count, (long, 0), more),
    ensures
        r is Some ==> short@.len() > 0 && forall|i: int|
            0 <= i < short@.len() ==> '0' <= (#[trigger] short@[i]) <= '9' || (i == 0 && short@.len()
                > 1 && short@[i] == '+'),
        !('0' <= d <= '9') ==> more is None || (short@.len() == 0 && d == '+'),
        r is Some && '0' <= d <= '9' ==> more == (if r->0 * 10 + (d as int - 48) <= usize::MAX {
            Some((r->0 * 10 + (d as int - 48)) as usize)
        } else {
            None
        }),
{
    let s = short@.skip(0);
    let l = long@.skip(0);
    assert(s =~= short@);
    assert(l =~= long@);
    let digits = text::unsigned_part(l);
    if digits.len() > 0 {
        assert(digits.last() == d);
        if r is Some {
            assert(digits.drop_last() =~= text::unsigned_part(s));
            assert forall|i: int| 0 <= i < short@.len() implies '0' <= (#[trigger] short@[i]) <= '9'
                || (i == 0 && short@.len() > 1 && short@[i] == '+') by {
                if short@.len() > 1 && short@[0] == '+' {
                    if i > 0 {
                        assert(text::unsigned_part(s)[i - 1] == short@[i]);
                    }
                } else {
                    assert(text::unsigned_part(s)[i] == short@[i]);
                }
            }
            if '0' <= d <= '9' {
                assert forall|i: int| 0 <= i < digits.len() implies '0' <= (#[trigger] digits[i])
                    <= '9' by {
                    if i < digits.len() - 1 {
                        assert(digits[i] == digits.drop_last()[i]);
                    }
                }
            }
        }
    }
}

/// A number that the database tells of itself reads, as text, as its digits.
pub proof fn law_property_text(
    db: Db,
    name: &str,
    n: Option<u64>,
    t: Option<String>,
    digits: String,
)
    requires
        db.wf(),
        db.property(name@) is None,
        name@ != "regolith.block-cache-usage"@,
        name@ != "regolith.pinned-metadata-bytes"@,
        call_ensures(Db::get_int_property, (&db, name), n),
        call_ensures(Db::get_property, (&db, name), t),
        n matches Some(x) ==> call_ensures(text::decimal, (x,), digits),
    ensures
        n is Some <==> t is Some,
        t matches Some(shown) ==> shown@ == digits@,
{
}

/// The entries of the memtable are told as one for every forty-eight bytes it
/// holds, and all that memtables hold and have set aside is what this one
/// holds.
pub proof fn law_memtable_properties(
    db: Db,
    size_name: &str,
    all_name: &str,
    kept_name: &str,
    entries_name: &str,
    size: Option<u64>,
    all: Option<u64>,
    kept: Option<u64>,
    entries: Option<u64>,
)
    requires
        db.wf(),
        size_name@ == "regolith.cur-size-active-mem-table"@,
        all_name@ == "regolith.cur-size-all-mem-tables"@,
        kept_name@ == "regolith.memtable-reserved-bytes"@,
        entries_name@ == "regolith.num-entries-active-mem-table"@,
        call_ensures(Db::get_int_property, (&db, size_name), size),
        call_ensures(Db::get_int_property, (&db, all_name), all),
        call_ensures(Db::get_int_property, (&db, kept_name), kept),
        call_ensures(Db::get_int_property, (&db, entries_name), entries),
    ensures
        size is Some,
        all == size,
        kept == size,
        entries matches Some(n) && n == size->0 / 48,
{
    let head = "regolith.num-files-at-level"@;
    reveal_strlit("regolith.num-files-at-level");
    reveal_strlit("regolith.total-sst-files-size");
    reveal_strlit("regolith.estimate-live-data-size");
    reveal_strlit("regolith.cur-size-active-mem-table");
    reveal_strlit("regolith.memtable-reserved-bytes");
    reveal_strlit("regolith.cur-size-all-mem-tables");
    reveal_strlit("regolith.num-entries-active-mem-table");
    reveal_strlit("regolith.estimate-num-keys");
    reveal_strlit("regolith.num-snapshots");
    reveal_strlit("regolith.oldest-snapshot-time");
    reveal_strlit("regolith.block-cache-capacity");
    reveal_strlit("regolith.arena-pool-bytes");
    reveal_strlit("regolith.num-entries-imm-mem-tables");
    reveal_strlit("regolith.background-errors");
    reveal_strlit("regolith.block-cache-usage");
    reveal_strlit("regolith.pinned-metadata-bytes");
    assert("regolith.cur-size-active-mem-table"@.len() != "regolith.total-sst-files-size"@.len());
    assert("regolith.cur-size-active-mem-table"@.len() != "regolith.estimate-live-data-size"@.len());
    assert("regolith.cur-size-active-mem-table"@.len() != "regolith.memtable-reserved-bytes"@.len());
    assert("regolith.cur-size-active-mem-table"@.len() != "regolith.cur-size-all-mem-tables"@.len());
    assert("regolith.cur-size-active-mem-table"@.len() != "regolith.num-entries-active-mem-table"@.len());
    assert("regolith.cur-size-active-mem-table"@.len() != "regolith.estimate-num-keys"@.len());
    assert("regolith.cur-size-active-mem-table"@.len() != "regolith.num-snapshots"@.len());
    assert("regolith.cur-size-active-mem-table"@.len() != "regolith.oldest-snapshot-time"@.len());
    assert("regolith.cur-size-active-mem-table"@.len() != "regolith.block-cache-capacity"@.len());
    assert("regolith.cur-size-active-mem-table"@.len() != "regolith.arena-pool-bytes"@.len());
    assert("regolith.cur-size-active-mem-table"@.len() != "regolith.num-entries-imm-mem-tables"@.len());
    assert("regolith.cur-size-active-mem-table"@.len() != "regolith.background-errors"@.len());
    assert("regolith.cur-size-active-mem-table"@.len() != "regolith.block-cache-usage"@.len());
    assert("regolith.cur-size-active-mem-table"@.len() != "regolith.pinned-metadata-bytes"@.len());
    if head.is_prefix_of("regolith.cur-size-active-mem-table"@) {
        assert(head[9] == "regolith.cur-size-active-mem-table"@.subrange(0, head.len() as int)[9]);
    }
    assert("regolith.cur-size-all-mem-tables"@.len() != "regolith.total-sst-files-size"@.len());
    assert("regolith.cur-size-all-mem-tables"@[9] != "regolith.estimate-live-data-size"@[9]);
    assert("regolith.cur-size-all-mem-tables"@.len() != "regolith.cur-size-active-mem-table"@.len());
    assert("regolith.cur-size-all-mem-tables"@[9] != "regolith.memtable-reserved-bytes"@[9]);
    assert("regolith.cur-size-all-mem-tables"@.len() != "regolith.num-entries-active-mem-table"@.len());
    assert("regolith.cur-size-all-mem-tables"@.len() != "regolith.estimate-num-keys"@.len());
    assert("regolith.cur-size-all-mem-tables"@.len() != "regolith.num-snapshots"@.len());
    assert("regolith.cur-size-all-mem-tables"@.len() != "regolith.oldest-snapshot-time"@.len());
    assert("regolith.cur-size-all-mem-tables"@.len() != "regolith.block-cache-capacity"@.len());
    assert("regolith.cur-size-all-mem-tables"@.len() != "regolith.arena-pool-bytes"@.len());
    assert("regolith.cur-size-all-mem-tables"@.len() != "regolith.num-entries-imm-mem-tables"@.len());
    assert("regolith.cur-size-all-mem-tables"@.len() != "regolith.background-errors"@.len());
    assert("regolith.cur-size-all-mem-tables"@.len() != "regolith.block-cache-usage"@.len());
    assert("regolith.cur-size-all-mem-tables"@.len() != "regolith.pinned-metadata-bytes"@.len());
    if head.is_prefix_of("regolith.cur-size-all-mem-tables"@) {
        assert(head[9] == "regolith.cur-size-all-mem-tables"@.subrange(0, head.len() as int)[9]);
    }
    assert("regolith.memtable-reserved-bytes"@.len() != "regolith.total-sst-files-size"@.len());
    assert("regolith.memtable-reserved-bytes"@[9] != "regolith.estimate-live-data-size"@[9]);
    assert("regolith.memtable-reserved-bytes"@.len() != "regolith.cur-size-active-mem-table"@.len());
    assert("regolith.memtable-reserved-bytes"@[9] != "regolith.cur-size-all-mem-tables"@[9]);
    assert("regolith.memtable-reserved-bytes"@.len() != "regolith.num-entries-active-mem-table"@.len());
    assert("regolith.memtable-reserved-bytes"@.len() != "regolith.estimate-num-keys"@.len());
    assert("regolith.memtable-reserved-bytes"@.len() != "regolith.num-snapshots"@.len());
    assert("regolith.memtable-reserved-bytes"@.len() != "regolith.oldest-snapshot-time"@.len());
    assert("regolith.memtable-reserved-bytes"@.len() != "regolith.block-cache-capacity"@.len());
    assert("regolith.memtable-reserved-bytes"@.len() != "regolith.arena-pool-bytes"@.len());
    assert("regolith.memtable-reserved-bytes"@.len() != "regolith.num-entries-imm-mem-tables"@.len());
    assert("regolith.memtable-reserved-bytes"@.len() != "regolith.background-errors"@.len());
    assert("regolith.memtable-reserved-bytes"@.len() != "regolith.block-cache-usage"@.len());
    assert("regolith.memtable-reserved-bytes"@.len() != "regolith.pinned-metadata-bytes"@.len());
    if head.is_prefix_of("regolith.memtable-reserved-bytes"@) {
        assert(head[9] == "regolith.memtable-reserved-bytes"@.subrange(0, head.len() as int)[9]);
    }
    assert("regolith.num-entries-active-mem-table"@.len() != "regolith.total-sst-files-size"@.len());
    assert("regolith.num-entries-active-mem-table"@.len() != "regolith.estimate-live-data-size"@.len());
    assert("regolith.num-entries-active-mem-table"@.len() != "regolith.cur-size-active-mem-table"@.len());
    assert("regolith.num-entries-active-mem-table"@.len() != "regolith.memtable-reserved-bytes"@.len());
    assert("regolith.num-entries-active-mem-table"@.len() != "regolith.cur-size-all-mem-tables"@.len());
    assert("regolith.num-entries-active-mem-table"@.len() != "regolith.estimate-num-keys"@.len());
    assert("regolith.num-entries-active-mem-table"@.len() != "regolith.num-snapshots"@.len());
    assert("regolith.num-entries-active-mem-table"@.len() != "regolith.oldest-snapshot-time"@.len());
    assert("regolith.num-entries-active-mem-table"@.len() != "regolith.block-cache-capacity"@.len());
    assert("regolith.num-entries-active-mem-table"@.len() != "regolith.arena-pool-bytes"@.len());
    assert("regolith.num-entries-active-mem-table"@.len() != "regolith.num-entries-imm-mem-tables"@.len());
    assert("regolith.num-entries-active-mem-table"@.len() != "regolith.background-errors"@.len());
    assert("regolith.num-entries-active-mem-table"@.len() != "regolith.block-cache-usage"@.len());
    assert("regolith.num-entries-active-mem-table"@.len() != "regolith.pinned-metadata-bytes"@.len());
    if head.is_prefix_of("regolith.num-entries-active-mem-table"@) {
        assert(head[13] == "regolith.num-entries-active-mem-table"@.subrange(0, head.len() as int)[13]);
    }
}

/// The keys are estimated as the entries of the tables and of the memtable
/// together.
pub proof fn law_estimated_keys(
    db: Db,
    keys_name: &str,
    entries_name: &str,
    keys: Option<u64>,
    entries: Option<u64>,
    engine: &RegolithEngine,
    held: u64,
)
    requires
        db.wf(),
        keys_name@ == "regolith.estimate-num-keys"@,
        entries_name@ == "regolith.num-entries-active-mem-table"@,
        call_ensures(Db::get_int_property, (&db, keys_name), keys),
        call_ensures(Db::get_int_property, (&db, entries_name), entries),
        call_ensures(Db::engine, (&db,), engine),
        call_ensures(RegolithEngine::total_sst_num_entries, (engine,), held),
    ensures
        keys matches Some(n) && entries matches Some(m) && (n < u64::MAX ==> n == held + m),
{
    let head = "regolith.num-files-at-level"@;
    reveal_strlit("regolith.num-files-at-level");
    reveal_strlit("regolith.total-sst-files-size");
    reveal_strlit("regolith.estimate-live-data-size");
    reveal_strlit("regolith.cur-size-active-mem-table");
    reveal_strlit("regolith.memtable-reserved-bytes");
    reveal_strlit("regolith.cur-size-all-mem-tables");
    reveal_strlit("regolith.num-entries-active-mem-table");
    reveal_strlit("regolith.estimate-num-keys");
    reveal_strlit("regolith.num-snapshots");
    reveal_strlit("regolith.oldest-snapshot-time");
    reveal_strlit("regolith.block-cache-capacity");
    reveal_strlit("regolith.arena-pool-bytes");
    reveal_strlit("regolith.num-entries-imm-mem-tables");
    reveal_strlit("regolith.background-errors");
    reveal_strlit("regolith.block-cache-usage");
    reveal_strlit("regolith.pinned-metadata-bytes");
    assert("regolith.estimate-num-keys"@.len() != "regolith.total-sst-files-size"@.len());
    assert("regolith.estimate-num-keys"@.len() != "regolith.estimate-live-data-size"@.len());
    assert("regolith.estimate-num-keys"@.len() != "regolith.cur-size-active-mem-table"@.len());
    assert("regolith.estimate-num-keys"@.len() != "regolith.memtable-reserved-bytes"@.len());
    assert("regolith.estimate-num-keys"@.len() != "regolith.cur-size-all-mem-tables"@.len());
    assert("regolith.estimate-num-keys"@.len() != "regolith.num-entries-active-mem-table"@.len());
    assert("regolith.estimate-num-keys"@.len() != "regolith.num-snapshots"@.len());
    assert("regolith.estimate-num-keys"@.len() != "regolith.oldest-snapshot-time"@.len());
    assert("regolith.estimate-num-keys"@.len() != "regolith.block-cache-capacity"@.len());
    assert("regolith.estimate-num-keys"@.len() != "regolith.arena-pool-bytes"@.len());
    assert("regolith.estimate-num-keys"@.len() != "regolith.num-entries-imm-mem-tables"@.len());
    assert("regolith.estimate-num-keys"@[9] != "regolith.background-errors"@[9]);
    assert("regolith.estimate-num-keys"@[9] != "regolith.block-cache-usage"@[9]);
    assert("regolith.estimate-num-keys"@.len() != "regolith.pinned-metadata-bytes"@.len());
    if head.is_prefix_of("regolith.estimate-num-keys"@) {
        assert(head[9] == "regolith.estimate-num-keys"@.subrange(0, head.len() as int)[9]);
    }
    assert("regolith.num-entries-active-mem-table"@.len() != "regolith.total-sst-files-size"@.len());
    assert("regolith.num-entries-active-mem-table"@.len() != "regolith.estimate-live-data-size"@.len());
    assert("regolith.num-entries-active-mem-table"@.len() != "regolith.cur-size-active-mem-table"@.len());
    assert("regolith.num-entries-active-mem-table"@.len() != "regolith.memtable-reserved-bytes"@.len());
    assert("regolith.num-entries-active-mem-table"@.len() != "regolith.cur-size-all-mem-tables"@.len());
    assert("regolith.num-entries-active-mem-table"@.len() != "regolith.estimate-num-keys"@.len());
    assert("regolith.num-entries-active-mem-table"@.len() != "regolith.num-snapshots"@.len());
    assert("regolith.num-entries-active-mem-table"@.len() != "regolith.oldest-snapshot-time"@.len());
    assert("regolith.num-entries-active-mem-table"@.len() != "regolith.block-cache-capacity"@.len());
    assert("regolith.num-entries-active-mem-table"@.len() != "regolith.arena-pool-bytes"@.len());
    assert("regolith.num-entries-active-mem-table"@.len() != "regolith.num-entries-imm-mem-tables"@.len());
    assert("regolith.num-entries-active-mem-table"@.len() != "regolith.background-errors"@.len());
    assert("regolith.num-entries-active-mem-table"@.len() != "regolith.block-cache-usage"@.len());
    assert("regolith.num-entries-active-mem-table"@.len() != "regolith.pinned-metadata-bytes"@.len());
    if head.is_prefix_of("regolith.num-entries-active-mem-table"@) {
        assert(head[13] == "regolith.num-entries-active-mem-table"@.subrange(0, head.len() as int)[13]);
    }
}

/// The capacity of the block cache is what the options gave it, and of what
/// the engine does not have it tells zero.
pub proof fn law_plain_properties(
    db: Db,
    cache: &str,
    pool: &str,
    imm: &str,
    errors: &str,
    a: Option<u64>,
    b: Option<u64>,
    c: Option<u64>,
    d: Option<u64>,
)
    requires
        db.wf(),
        cache@ == "regolith.block-cache-capacity"@,
        pool@ == "regolith.arena-pool-bytes"@,
        imm@ == "regolith.num-entries-imm-mem-tables"@,
        errors@ == "regolith.background-errors"@,
        call_ensures(Db::get_int_property, (&db, cache), a),
        call_ensures(Db::get_int_property, (&db, pool), b),
        call_ensures(Db::get_int_property, (&db, imm), c),
        call_ensures(Db::get_int_property, (&db, errors), d),
    ensures
        a == Some(db.store().settings().block_cache_size as u64),
        b == Some(0u64) && c == Some(0u64) && d == Some(0u64),
{
    let head = "regolith.num-files-at-level"@;
    reveal_strlit("regolith.num-files-at-level");
    reveal_strlit("regolith.total-sst-files-size");
    reveal_strlit("regolith.estimate-live-data-size");
    reveal_strlit("regolith.cur-size-active-mem-table");
    reveal_strlit("regolith.memtable-reserved-bytes");
    reveal_strlit("regolith.cur-size-all-mem-tables");
    reveal_strlit("regolith.num-entries-active-mem-table");
    reveal_strlit("regolith.estimate-num-keys");
    reveal_strlit("regolith.num-snapshots");
    reveal_strlit("regolith.oldest-snapshot-time");
    reveal_strlit("regolith.block-cache-capacity");
    reveal_strlit("regolith.arena-pool-bytes");
    reveal_strlit("regolith.num-entries-imm-mem-tables");
    reveal_strlit("regolith.background-errors");
    reveal_strlit("regolith.block-cache-usage");
    reveal_strlit("regolith.pinned-metadata-bytes");
    assert("regolith.block-cache-capacity"@[9] != "regolith.total-sst-files-size"@[9]);
    assert("regolith.block-cache-capacity"@.len() != "regolith.estimate-live-data-size"@.len());
    assert("regolith.block-cache-capacity"@.len() != "regolith.cur-size-active-mem-table"@.len());
    assert("regolith.block-cache-capacity"@.len() != "regolith.memtable-reserved-bytes"@.len());
    assert("regolith.block-cache-capacity"@.len() != "regolith.cur-size-all-mem-tables"@.len());
    assert("regolith.block-cache-capacity"@.len() != "regolith.num-entries-active-mem-table"@.len());
    assert("regolith.block-cache-capacity"@.len() != "regolith.estimate-num-keys"@.len());
    assert("regolith.block-cache-capacity"@.len() != "regolith.num-snapshots"@.len());
    assert("regolith.block-cache-capacity"@[9] != "regolith.oldest-snapshot-time"@[9]);
    assert("regolith.block-cache-capacity"@.len() != "regolith.arena-pool-bytes"@.len());
    assert("regolith.block-cache-capacity"@.len() != "regolith.num-entries-imm-mem-tables"@.len());
    assert("regolith.block-cache-capacity"@.len() != "regolith.background-errors"@.len());
    assert("regolith.block-cache-capacity"@.len() != "regolith.block-cache-usage"@.len());
    assert("regolith.block-cache-capacity"@.len() != "regolith.pinned-metadata-bytes"@.len());
    if head.is_prefix_of("regolith.block-cache-capacity"@) {
        assert(head[9] == "regolith.block-cache-capacity"@.subrange(0, head.len() as int)[9]);
    }
    assert("regolith.arena-pool-bytes"@.len() != "regolith.total-sst-files-size"@.len());
    assert("regolith.arena-pool-bytes"@.len() != "regolith.estimate-live-data-size"@.len());
    assert("regolith.arena-pool-bytes"@.len() != "regolith.cur-size-active-mem-table"@.len());
    assert("regolith.arena-pool-bytes"@.len() != "regolith.memtable-reserved-bytes"@.len());
    assert("regolith.arena-pool-bytes"@.len() != "regolith.cur-size-all-mem-tables"@.len());
    assert("regolith.arena-pool-bytes"@.len() != "regolith.num-entries-active-mem-table"@.len());
    assert("regolith.arena-pool-bytes"@.len() != "regolith.estimate-num-keys"@.len());
    assert("regolith.arena-pool-bytes"@.len() != "regolith.num-snapshots"@.len());
    assert("regolith.arena-pool-bytes"@.len() != "regolith.oldest-snapshot-time"@.len());
    assert("regolith.arena-pool-bytes"@.len() != "regolith.block-cache-capacity"@.len());
    assert("regolith.arena-pool-bytes"@.len() != "regolith.num-entries-imm-mem-tables"@.len());
    assert("regolith.arena-pool-bytes"@.len() != "regolith.background-errors"@.len());
    assert("regolith.arena-pool-bytes"@.len() != "regolith.block-cache-usage"@.len());
    assert("regolith.arena-pool-bytes"@.len() != "regolith.pinned-metadata-bytes"@.len());
    if head.is_prefix_of("regolith.arena-pool-bytes"@) {
        assert(head[9] == "regolith.arena-pool-bytes"@.subrange(0, head.len() as int)[9]);
    }
    assert("regolith.num-entries-imm-mem-tables"@.len() != "regolith.total-sst-files-size"@.len());
    assert("regolith.num-entries-imm-mem-tables"@.len() != "regolith.estimate-live-data-size"@.len());
    assert("regolith.num-entries-imm-mem-tables"@.len() != "regolith.cur-size-active-mem-table"@.len());
    assert("regolith.num-entries-imm-mem-tables"@.len() != "regolith.memtable-reserved-bytes"@.len());
    assert("regolith.num-entries-imm-mem-tables"@.len() != "regolith.cur-size-all-mem-tables"@.len());
    assert("regolith.num-entries-imm-mem-tables"@.len() != "regolith.num-entries-active-mem-table"@.len());
    assert("regolith.num-entries-imm-mem-tables"@.len() != "regolith.estimate-num-keys"@.len());
    assert("regolith.num-entries-imm-mem-tables"@.len() != "regolith.num-snapshots"@.len());
    assert("regolith.num-entries-imm-mem-tables"@.len() != "regolith.oldest-snapshot-time"@.len());
    assert("regolith.num-entries-imm-mem-tables"@.len() != "regolith.block-cache-capacity"@.len());
    assert("regolith.num-entries-imm-mem-tables"@.len() != "regolith.arena-pool-bytes"@.len());
    assert("regolith.num-entries-imm-mem-tables"@.len() != "regolith.background-errors"@.len());
    assert("regolith.num-entries-imm-mem-tables"@.len() != "regolith.block-cache-usage"@.len());
    assert("regolith.num-entries-imm-mem-tables"@.len() != "regolith.pinned-metadata-bytes"@.len());
    if head.is_prefix_of("regolith.num-entries-imm-mem-tables"@) {
        assert(head[13] == "regolith.num-entries-imm-mem-tables"@.subrange(0, head.len() as int)[13]);
    }
    assert("regolith.background-errors"@.len() != "regolith.total-sst-files-size"@.len());
    assert("regolith.background-errors"@.len() != "regolith.estimate-live-data-size"@.len());
    assert("regolith.background-errors"@.len() != "regolith.cur-size-active-mem-table"@.len());
    assert("regolith.background-errors"@.len() != "regolith.memtable-reserved-bytes"@.len());
    assert("regolith.background-errors"@.len() != "regolith.cur-size-all-mem-tables"@.len());
    assert("regolith.background-errors"@.len() != "regolith.num-entries-active-mem-table"@.len());
    assert("regolith.background-errors"@[9] != "regolith.estimate-num-keys"@[9]);
    assert("regolith.background-errors"@.len() != "regolith.num-snapshots"@.len());
    assert("regolith.background-errors"@.len() != "regolith.oldest-snapshot-time"@.len());
    assert("regolith.background-errors"@.len() != "regolith.block-cache-capacity"@.len());
    assert("regolith.background-errors"@.len() != "regolith.arena-pool-bytes"@.len());
    assert("regolith.background-errors"@.len() != "regolith.num-entries-imm-mem-tables"@.len());
    assert("regolith.background-errors"@[10] != "regolith.block-cache-usage"@[10]);
    assert("regolith.background-errors"@.len() != "regolith.pinned-metadata-bytes"@.len());
    if head.is_prefix_of("regolith.background-errors"@) {
        assert(head[9] == "regolith.background-errors"@.subrange(0, head.len() as int)[9]);
    }
}

/// Text behind as many blanks as it lacks of `width` characters.
pub open spec fn behind_blanks(t: Seq<char>, width: int) -> Seq<char> {
    if t.len() < width {
        Seq::new((width - t.len()) as nat, |i: int| ' ') + t
    } else {
        t
    }
}

/// The lines of the first `n` levels: the level, its tables and their size.
pub open spec fn level_lines(
    levels: Seq<String>,
    counts: Seq<String>,
    sizes: Seq<String>,
    n: nat,
) -> Seq<char>
    decreases n,
{
    if n == 0 {
        Seq::empty()
    } else {
        let i = n - 1;
        level_lines(levels, counts, sizes, i as nat) + (behind_blanks(levels[i]@, 5) + "  "@
            + behind_blanks(counts[i]@, 5) + "  "@ + behind_blanks(sizes[i]@, 10) + "\n"@)
    }
}

/// The report on levels has a line for each of the seven: how many tables are
/// there, and how large they are together.
pub proof fn law_level_report(
    db: Db,
    name: &str,
    r: Option<String>,
    engine: &RegolithEngine,
    files: Seq<u64>,
    bytes: Seq<u64>,
    levels: Seq<String>,
    counts: Seq<String>,
    sizes: Seq<String>,
)
    requires
        db.wf(),
        name@ == "regolith.levelstats"@,
        call_ensures(Db::get_property, (&db, name), r),
        call_ensures(Db::engine, (&db,), engine),
        forall|i: int|
            #![trigger levels[i]]
            0 <= i < 7 ==> call_ensures(text::decimal, (i as u64,), levels[i]) && call_ensures(
                RegolithEngine::num_files_at_level,
                (engine, i as usize),
                files[i],
            ) && call_ensures(RegolithEngine::level_bytes, (engine, i as usize), bytes[i])
                && call_ensures(text::decimal, (files[i],), counts[i]) && call_ensures(
                text::decimal,
                (bytes[i],),
                sizes[i],
            ),
    ensures
        r matches Some(t) && t@ == "Level  Files     Size(B)\n"@ + level_lines(
            levels,
            counts,
            sizes,
            7,
        ),
{
    reveal_strlit("regolith.levelstats");
    reveal_strlit("regolith.stats");
    reveal_strlit("regolith.sstables");
    assert("regolith.levelstats"@.len() != "regolith.stats"@.len());
    assert("regolith.levelstats"@.len() != "regolith.sstables"@.len());
    lemma_level_lines(db, engine, files, bytes, levels, counts, sizes, 7);
}

proof fn lemma_level_lines(
    db: Db,
    engine: &RegolithEngine,
    files: Seq<u64>,
    bytes: Seq<u64>,
    levels: Seq<String>,
    counts: Seq<String>,
    sizes: Seq<String>,
    n: nat,
)
    requires
        db.wf(),
        n <= 7,
        call_ensures(Db::engine, (&db,), engine),
        forall|i: int|
            #![trigger levels[i]]
            0 <= i < 7 ==> call_ensures(text::decimal, (i as u64,), levels[i]) && call_ensures(
                RegolithEngine::num_files_at_level,
                (engine, i as usize),
                files[i],
            ) && call_ensures(RegolithEngine::level_bytes, (engine, i as usize), bytes[i])
                && call_ensures(text::decimal, (files[i],), counts[i]) && call_ensures(
                text::decimal,
                (bytes[i],),
                sizes[i],
            ),
    ensures
        level_rows(db.store().files(), n) == level_lines(levels, counts, sizes, n),
    decreases n,
{
    if n > 0 {
        let i = n - 1;
        lemma_level_lines(db, engine, files, bytes, levels, counts, sizes, i as nat);
        assert(levels[i]@ == decimal_text(i as nat));
        assert(counts[i]@ == decimal_text(files[i] as nat));
        assert(sizes[i]@ == decimal_text(bytes[i] as nat));
        assert(level_row(db.store().files(), i as usize) =~= behind_blanks(levels[i]@, 5) + "  "@
            + behind_blanks(counts[i]@, 5) + "  "@ + behind_blanks(sizes[i]@, 10) + "\n"@);
    }
}

/// The report on options tells the durability, the default family, whether
/// the database only reads, and its limits.
pub proof fn law_options_report(
    db: Db,
    name: &str,
    r: Option<String>,
    key_limit: String,
    value_limit: String,
    inline_keys: String,
)
    requires
        db.wf(),
        name@ == "regolith.options"@,
        call_ensures(Db::get_property, (&db, name), r),
        call_ensures(text::decimal, (db.key_limit() as u64,), key_limit),
        call_ensures(text::decimal, (db.value_limit() as u64,), value_limit),
        call_ensures(text::decimal, (db.keys_inline() as u64,), inline_keys),
    ensures
        r matches Some(t) && t@ == "OptionsSnapshot {\n    durability: "@ + (if db.mode()
            is Immediate {
            "Immediate"@
        } else {
            "Eventual"@
        }) + ",\n    default_cf: \""@ + "default"@ + "\",\n    read_only: "@ + (
        if db.is_read_only() {
            "true"@
        } else {
            "false"@
        }) + ",\n    max_key_size: "@ + key_limit@ + ",\n    max_value_size: "@ + value_limit@
            + ",\n    transaction_keys_inline: "@ + inline_keys@ + ",\n}"@,
{
    reveal_strlit("regolith.options");
    reveal_strlit("regolith.levelstats");
    reveal_strlit("regolith.stats");
    reveal_strlit("regolith.sstables");
    assert("regolith.options"@.len() != "regolith.levelstats"@.len());
    assert("regolith.options"@.len() != "regolith.stats"@.len());
    assert("regolith.options"@.len() != "regolith.sstables"@.len());
}

} // verus!
