//! Named properties: numbers and reports on what the engine holds.

use vstd::prelude::*;
use vstd::slice::slice_subrange;

use crate::column_family::{CF_PREFIX_LEN, DEFAULT_CF_NAME};
use crate::db::Db;
use crate::engine::memtable::{at_most_u64, records_of, weight_of};
use crate::engine::store::levels::{greatest_key, least_key, level_size, NUM_LEVELS};
use crate::engine::store::{files_at, stacked_entries, stacked_size, TableFile};
use crate::options::{durability_text, durability_word};
use crate::text::{
    align_right, ascii_text, count_in, decimal, decimal_text, hex, hex_text, is_printable, join2,
    join3, join5, parse_count, printable, printed, right_aligned, same_text, starts_with,
};

verus! {

/// The part of a stored key a report shows: the user key, where the stored
/// key has room for one.
pub open spec fn shown_part(key: Seq<u8>) -> Seq<u8> {
    if key.len() > CF_PREFIX_LEN {
        key.skip(CF_PREFIX_LEN as int)
    } else {
        key
    }
}

/// How a report shows a stored key: its user key, quoted where every byte is
/// printable, else in hexadecimal. A key too short to hold a user key is
/// shown whole, in hexadecimal.
pub open spec fn key_text(key: Seq<u8>) -> Seq<char> {
    if key.len() > CF_PREFIX_LEN && is_printable(shown_part(key)) {
        "\""@ + ascii_text(shown_part(key)) + "\""@
    } else {
        "0x"@ + hex_text(shown_part(key))
    }
}

/// How a report shows a stored key.
pub fn format_key_for_display(key: &[u8]) -> (r: String)
    ensures
        r@ == key_text(key@),
{
    let payload = if key.len() > CF_PREFIX_LEN {
        slice_subrange(key, CF_PREFIX_LEN, key.len())
    } else {
        key
    };
    assert(payload@ =~= shown_part(key@));
    if key.len() > CF_PREFIX_LEN && printable(payload) {
        join3("\"", printed(payload).as_str(), "\"")
    } else {
        join2("0x", hex(payload).as_str())
    }
}

/// A number, right-aligned.
pub open spec fn column(n: nat, width: nat) -> Seq<char> {
    right_aligned(decimal_text(n), width)
}

fn column_text(n: u64, width: usize) -> (r: String)
    ensures
        r@ == column(n as nat, width as nat),
{
    align_right(decimal(n).as_str(), width)
}

/// One row of the level report.
pub open spec fn level_row(tables: Seq<TableFile>, level: usize) -> Seq<char> {
    column(level as nat, 5) + "  "@ + column(files_at(tables, level), 5) + "  "@ + column(
        level_size(tables, level),
        10,
    ) + "\n"@
}

/// The rows of the level report for the first `n` levels.
pub open spec fn level_rows(tables: Seq<TableFile>, n: nat) -> Seq<char>
    decreases n,
{
    if n == 0 {
        Seq::empty()
    } else {
        level_rows(tables, (n - 1) as nat) + level_row(tables, (n - 1) as usize)
    }
}

/// The level report: one row per level, whether it has tables or not.
pub open spec fn levelstats_text(tables: Seq<TableFile>) -> Seq<char> {
    "Level  Files     Size(B)\n"@ + level_rows(tables, NUM_LEVELS as nat)
}

/// The general report.
pub open spec fn stats_text(tables: Seq<TableFile>) -> Seq<char> {
    "== regolith engine stats ==\n"@ + levelstats_text(tables)
        + "\n(no Statistics object configured - see Options::statistics)\n"@
}

/// One row of the table report.
pub open spec fn table_row(level: usize, file: TableFile) -> Seq<char> {
    let least = match least_key(file.history()) {
        Some(key) => key,
        None => Seq::empty(),
    };
    let greatest = match greatest_key(file.history()) {
        Some(key) => key,
        None => Seq::empty(),
    };
    column(level as nat, 5) + "  "@ + column(file.number() as nat, 8) + "  "@ + (column(
        at_most_u64(weight_of(file.history())),
        12,
    ) + "  "@ + column(records_of(file.history()).len(), 10) + "  "@) + (key_text(least) + ".."@
        + key_text(greatest) + "\n"@)
}

/// The rows of the tables at one level.
pub open spec fn table_rows(tables: Seq<TableFile>, level: usize) -> Seq<char>
    decreases tables.len(),
{
    if tables.len() == 0 {
        Seq::empty()
    } else {
        let before = table_rows(tables.drop_last(), level);
        if tables.last().at_level() == level {
            before + table_row(level, tables.last())
        } else {
            before
        }
    }
}

/// The rows of the tables at the first `n` levels.
pub open spec fn all_table_rows(tables: Seq<TableFile>, n: nat) -> Seq<char>
    decreases n,
{
    if n == 0 {
        Seq::empty()
    } else {
        all_table_rows(tables, (n - 1) as nat) + table_rows(tables, (n - 1) as usize)
    }
}

/// The table report: one row per table, level by level.
pub open spec fn sstables_text(tables: Seq<TableFile>) -> Seq<char> {
    "Level    FileID       Size(B)     Entries  SmallestKey..LargestKey\n"@ + all_table_rows(
        tables,
        NUM_LEVELS as nat,
    )
}

fn row_of(level: usize, file: &TableFile) -> (r: String)
    requires
        file.wf(),
    ensures
        r@ == table_row(level, *file),
{
    let (least, greatest): (Vec<u8>, Vec<u8>) = match file.key_range() {
        Some((least, greatest)) => (least, greatest),
        None => (Vec::new(), Vec::new()),
    };
    proof {
        if least_key(file.history()) is None {
            assert(least@ =~= Seq::<u8>::empty());
            assert(greatest@ =~= Seq::<u8>::empty());
        }
    }
    let head: String = join5(
        column_text(level as u64, 5).as_str(),
        "  ",
        column_text(file.file_id(), 8).as_str(),
        "  ",
        "",
    );
    let middle: String = join5(
        column_text(file.file_size(), 12).as_str(),
        "  ",
        column_text(file.num_entries(), 10).as_str(),
        "  ",
        "",
    );
    let tail: String = join5(
        format_key_for_display(least.as_slice()).as_str(),
        "..",
        format_key_for_display(greatest.as_slice()).as_str(),
        "\n",
        "",
    );
    proof {
        reveal_strlit("");
    }
    let r: String = join3(head.as_str(), middle.as_str(), tail.as_str());
    assert(r@ =~= table_row(level, *file));
    r
}

fn rows_at(tables: &Vec<TableFile>, level: usize) -> (r: String)
    requires
        forall|i: int| 0 <= i < tables@.len() ==> (#[trigger] tables@[i]).wf(),
    ensures
        r@ == table_rows(tables@, level),
{
    let mut out: String = "".to_owned();
    let mut i: usize = 0;
    proof {
        reveal_strlit("");
        assert(tables@.take(0) =~= Seq::<TableFile>::empty());
        assert(out@ =~= Seq::<char>::empty());
    }
    while i < tables.len()
        invariant
            forall|j: int| 0 <= j < tables@.len() ==> (#[trigger] tables@[j]).wf(),
            i <= tables@.len(),
            out@ == table_rows(tables@.take(i as int), level),
        decreases tables@.len() - i,
    {
        proof {
            assert(tables@.take(i + 1).drop_last() =~= tables@.take(i as int));
            assert(tables@.take(i + 1).last() == tables@[i as int]);
            assert(tables@[i as int].wf());
        }
        if tables[i].level() == level {
            out = join2(out.as_str(), row_of(level, &tables[i]).as_str());
        }
        i += 1;
    }
    assert(tables@.take(i as int) =~= tables@);
    out
}

/// The options report.
pub open spec fn options_text(
    durability: Seq<char>,
    read_only: bool,
    max_key_size: usize,
    max_value_size: usize,
    transaction_keys_inline: usize,
) -> Seq<char> {
    "OptionsSnapshot {\n    durability: "@ + durability + ",\n    default_cf: \""@
        + DEFAULT_CF_NAME@ + "\",\n    read_only: "@ + (if read_only {
        "true"@
    } else {
        "false"@
    }) + ",\n    max_key_size: "@ + decimal_text(max_key_size as nat) + ",\n    max_value_size: "@
        + decimal_text(max_value_size as nat) + ",\n    transaction_keys_inline: "@ + decimal_text(
        transaction_keys_inline as nat,
    ) + ",\n}"@
}

impl Db {
    // ── numbers ─────────────────────────────────────────────────────────

    /// Bytes the active memtable holds.
    pub open spec fn memtable_bytes(self) -> nat {
        at_most_u64(weight_of(self.store().active()))
    }

    /// The number of the property `name`, where it has one. There are no
    /// memtables but the active one, and nothing is kept in reserve.
    pub open spec fn int_property(self, name: Seq<char>) -> Option<u64> {
        let head = "regolith.num-files-at-level"@;
        if head.is_prefix_of(name) {
            match count_in(name.skip(head.len() as int)) {
                Some(level) => Some(files_at(self.store().files(), level) as u64),
                None => None,
            }
        } else if name == "regolith.total-sst-files-size"@ || name
            == "regolith.estimate-live-data-size"@ {
            Some(stacked_size(self.store().files()) as u64)
        } else if name == "regolith.cur-size-active-mem-table"@ || name
            == "regolith.memtable-reserved-bytes"@ || name == "regolith.cur-size-all-mem-tables"@ {
            Some(self.memtable_bytes() as u64)
        } else if name == "regolith.num-entries-active-mem-table"@ {
            Some((self.memtable_bytes() / 48) as u64)
        } else if name == "regolith.estimate-num-keys"@ {
            Some(
                at_most_u64(
                    stacked_entries(self.store().files()) + self.memtable_bytes() / 48,
                ) as u64,
            )
        } else if name == "regolith.num-snapshots"@ {
            Some(self.live_snapshots() as u64)
        } else if name == "regolith.oldest-snapshot-time"@ {
            if self.live_snapshots() == 0 {
                None
            } else {
                self.pins()[self.store().registry().oldest()].registered_at_unix
            }
        } else if name == "regolith.block-cache-capacity"@ {
            Some(self.store().settings().block_cache_size as u64)
        } else if name == "regolith.arena-pool-bytes"@ || name
            == "regolith.num-entries-imm-mem-tables"@ || name == "regolith.background-errors"@ {
            Some(0)
        } else {
            None
        }
    }

    /// `n` may be told as the number of the property `name`. How much the
    /// cache holds, and how much the tables hold beside it, is no matter of
    /// what the database holds: the cache holds no more than its capacity, and
    /// no more than there is in the tables.
    pub open spec fn may_tell_int(self, name: Seq<char>, n: Option<u64>) -> bool {
        if name == "regolith.block-cache-usage"@ {
            n matches Some(used) && used <= self.store().settings().block_cache_size && used
                <= stacked_size(self.store().files())
        } else if name == "regolith.pinned-metadata-bytes"@ {
            n is Some
        } else {
            n == self.int_property(name)
        }
    }

    /// `text` may be told as the report of the property `name`. Every number
    /// is a report of its decimal digits.
    pub open spec fn may_tell(self, name: Seq<char>, text: Option<Seq<char>>) -> bool {
        match self.property(name) {
            Some(report) => text == Some(report),
            None => exists|n: Option<u64>| #[trigger]
                self.may_tell_int(name, n) && text == (match n {
                    Some(n) => Some(decimal_text(n as nat)),
                    None => None,
                }),
        }
    }

    /// The report of the property `name`, where it has one that is more than
    /// a number.
    pub open spec fn property(self, name: Seq<char>) -> Option<Seq<char>> {
        if name == "regolith.stats"@ {
            Some(stats_text(self.store().files()))
        } else if name == "regolith.sstables"@ {
            Some(sstables_text(self.store().files()))
        } else if name == "regolith.levelstats"@ {
            Some(levelstats_text(self.store().files()))
        } else if name == "regolith.options"@ {
            Some(
                options_text(
                    durability_text(self.mode()),
                    self.is_read_only(),
                    self.key_limit(),
                    self.value_limit(),
                    self.keys_inline(),
                ),
            )
        } else {
            None
        }
    }

    /// The integer value of a named property, or `None` if `name` is not
    /// recognised or has no integer form.
    pub fn get_int_property(&self, name: &str) -> (r: Option<u64>)
        requires
            self.wf(),
        ensures
            self.may_tell_int(name@, r),
    {
        proof {
            reveal_strlit("regolith.num-files-at-level");
            self.engine.lemma_registry_whole();
            self.engine.registry().lemma_oldest();
        }
        if same_text(name, "regolith.pinned-metadata-bytes") {
            return Some(0);
        }
        if same_text(name, "regolith.block-cache-usage") {
            let held: u64 = self.engine.total_sst_size();
            let capacity: u64 = self.engine.block_cache_capacity();
            return Some(if held < capacity { held } else { capacity });
        }
        if starts_with(name, "regolith.num-files-at-level") {
            return match parse_count(name, 27) {
                Some(level) => Some(self.engine.num_files_at_level(level)),
                None => None,
            };
        }
        if same_text(name, "regolith.total-sst-files-size") || same_text(
            name,
            "regolith.estimate-live-data-size",
        ) {
            return Some(self.engine.total_sst_size());
        }
        let memtable: u64 = self.engine.active_memtable_size();
        if same_text(name, "regolith.cur-size-active-mem-table") || same_text(
            name,
            "regolith.memtable-reserved-bytes",
        ) || same_text(name, "regolith.cur-size-all-mem-tables") {
            return Some(memtable);
        }
        // Approximate: 48 bytes stand for the average entry.
        if same_text(name, "regolith.num-entries-active-mem-table") {
            return Some(memtable / 48);
        }
        if same_text(name, "regolith.estimate-num-keys") {
            return Some(self.engine.total_sst_num_entries().saturating_add(memtable / 48));
        }
        if same_text(name, "regolith.num-snapshots") {
            return Some(self.engine.live_snapshot_count());
        }
        if same_text(name, "regolith.oldest-snapshot-time") {
            return self.engine.oldest_snapshot_time_unix();
        }
        if same_text(name, "regolith.block-cache-capacity") {
            return Some(self.engine.block_cache_capacity());
        }
        if same_text(name, "regolith.arena-pool-bytes") || same_text(
            name,
            "regolith.num-entries-imm-mem-tables",
        ) || same_text(name, "regolith.background-errors") {
            return Some(0);
        }
        None
    }

    // ── reports ─────────────────────────────────────────────────────────

    fn format_levelstats_property(&self) -> (r: String)
        requires
            self.wf(),
        ensures
            r@ == levelstats_text(self.store().files()),
    {
        let mut rows: String = "".to_owned();
        let mut level: usize = 0;
        proof {
            reveal_strlit("");
            assert(rows@ =~= Seq::<char>::empty());
        }
        while level < NUM_LEVELS
            invariant
                self.wf(),
                level <= NUM_LEVELS,
                rows@ == level_rows(self.store().files(), level as nat),
            decreases NUM_LEVELS - level,
        {
            let files: u64 = self.engine.num_files_at_level(level);
            let size: u64 = self.engine.level_bytes(level);
            let left: String = join5(
                column_text(level as u64, 5).as_str(),
                "  ",
                column_text(files, 5).as_str(),
                "  ",
                column_text(size, 10).as_str(),
            );
            let row: String = join2(left.as_str(), "\n");
            rows = join2(rows.as_str(), row.as_str());
            level += 1;
        }
        join2("Level  Files     Size(B)\n", rows.as_str())
    }

    fn format_stats_property(&self) -> (r: String)
        requires
            self.wf(),
        ensures
            r@ == stats_text(self.store().files()),
    {
        join3(
            "== regolith engine stats ==\n",
            self.format_levelstats_property().as_str(),
            "\n(no Statistics object configured - see Options::statistics)\n",
        )
    }

    fn format_sstables_property(&self) -> (r: String)
        requires
            self.wf(),
        ensures
            r@ == sstables_text(self.store().files()),
    {
        let tables: &Vec<TableFile> = self.engine.tables();
        let mut rows: String = "".to_owned();
        let mut level: usize = 0;
        proof {
            reveal_strlit("");
            assert(rows@ =~= Seq::<char>::empty());
        }
        while level < NUM_LEVELS
            invariant
                forall|j: int| 0 <= j < tables@.len() ==> (#[trigger] tables@[j]).wf(),
                level <= NUM_LEVELS,
                rows@ == all_table_rows(tables@, level as nat),
            decreases NUM_LEVELS - level,
        {
            rows = join2(rows.as_str(), rows_at(tables, level).as_str());
            level += 1;
        }
        join2(
            "Level    FileID       Size(B)     Entries  SmallestKey..LargestKey\n",
            rows.as_str(),
        )
    }

    fn options_snapshot(&self) -> (r: String)
        ensures
            r@ == options_text(
                durability_text(self.mode()),
                self.is_read_only(),
                self.key_limit(),
                self.value_limit(),
                self.keys_inline(),
            ),
    {
        let read_only: &'static str = if self.read_only {
            "true"
        } else {
            "false"
        };
        let head: String = join5(
            "OptionsSnapshot {\n    durability: ",
            durability_word(self.durability),
            ",\n    default_cf: \"",
            DEFAULT_CF_NAME,
            "\",\n    read_only: ",
        );
        let middle: String = join5(
            head.as_str(),
            read_only,
            ",\n    max_key_size: ",
            decimal(self.max_key_size as u64).as_str(),
            ",\n    max_value_size: ",
        );
        join5(
            middle.as_str(),
            decimal(self.max_value_size as u64).as_str(),
            ",\n    transaction_keys_inline: ",
            decimal(self.transaction_keys_inline as u64).as_str(),
            ",\n}",
        )
    }

    /// The string value of a named property, or `None` if `name` is not
    /// recognised.
    pub fn get_property(&self, name: &str) -> (r: Option<String>)
        requires
            self.wf(),
        ensures
            self.may_tell(
                name@,
                match r {
                    Some(text) => Some(text@),
                    None => None,
                },
            ),
    {
        if same_text(name, "regolith.stats") {
            return Some(self.format_stats_property());
        }
        if same_text(name, "regolith.sstables") {
            return Some(self.format_sstables_property());
        }
        if same_text(name, "regolith.levelstats") {
            return Some(self.format_levelstats_property());
        }
        if same_text(name, "regolith.options") {
            return Some(self.options_snapshot());
        }
        let n: Option<u64> = self.get_int_property(name);
        assert(self.may_tell_int(name@, n));
        match n {
            Some(n) => Some(decimal(n)),
            None => None,
        }
    }
}

} // verus!
