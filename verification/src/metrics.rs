//! Analytical helpers over in-memory tables: ASCII character counts for
//! varchar columns.

use crate::table::{ColumnData, Table};
use vstd::prelude::*;

verus! {

/// Occurrences of a character in a string.
pub open spec fn spec_char_count_in(s: Seq<char>, c: char) -> int
    decreases s.len(),
{
    if s.len() == 0 {
        0
    } else {
        spec_char_count_in(s.drop_last(), c) + if s.last() == c {
            1int
        } else {
            0int
        }
    }
}

/// Occurrences of a character across a column of strings.
pub open spec fn spec_char_count(vs: Seq<String>, c: char) -> int
    decreases vs.len(),
{
    if vs.len() == 0 {
        0
    } else {
        spec_char_count(vs.drop_last(), c) + spec_char_count_in(vs.last()@, c)
    }
}

/// ASCII characters in a string (code points below 128).
pub open spec fn spec_ascii_count_in(s: Seq<char>, ) -> int
    decreases s.len(),
{
    if s.len() == 0 {
        0
    } else {
        spec_ascii_count_in(s.drop_last()) + if (s.last() as int) < 128 {
            1int
        } else {
            0int
        }
    }
}

/// ASCII characters across a column of strings.
pub open spec fn spec_ascii_count(vs: Seq<String>) -> int
    decreases vs.len(),
{
    if vs.len() == 0 {
        0
    } else {
        spec_ascii_count(vs.drop_last()) + spec_ascii_count_in(vs.last()@)
    }
}

pub open spec fn sat_usize(x: int) -> usize {
    if x > usize::MAX {
        usize::MAX
    } else if x < 0 {
        0
    } else {
        x as usize
    }
}

fn sat_add1(a: usize) -> (r: usize)
    ensures
        r == sat_usize(a + 1),
{
    if a == usize::MAX {
        usize::MAX
    } else {
        a + 1
    }
}


proof fn lemma_char_count_in_nonneg(s: Seq<char>, c: char)
    ensures
        spec_char_count_in(s, c) >= 0,
    decreases s.len(),
{
    if s.len() > 0 {
        lemma_char_count_in_nonneg(s.drop_last(), c);
    }
}

proof fn lemma_char_count_nonneg(vs: Seq<String>, c: char)
    ensures
        spec_char_count(vs, c) >= 0,
    decreases vs.len(),
{
    if vs.len() > 0 {
        lemma_char_count_nonneg(vs.drop_last(), c);
        lemma_char_count_in_nonneg(vs.last()@, c);
    }
}

proof fn lemma_ascii_count_in_nonneg(s: Seq<char>)
    ensures
        spec_ascii_count_in(s) >= 0,
    decreases s.len(),
{
    if s.len() > 0 {
        lemma_ascii_count_in_nonneg(s.drop_last());
    }
}

proof fn lemma_ascii_count_nonneg(vs: Seq<String>)
    ensures
        spec_ascii_count(vs) >= 0,
    decreases vs.len(),
{
    if vs.len() > 0 {
        lemma_ascii_count_nonneg(vs.drop_last());
        lemma_ascii_count_in_nonneg(vs.last()@);
    }
}

/// Count one character's occurrences in a varchar column, saturating at the
/// platform limit.
fn count_char(vs: &Vec<String>, c: char) -> (r: usize)
    ensures
        r == sat_usize(spec_char_count(vs@, c)),
{
    let mut total: usize = 0;
    let mut i: usize = 0;
    while i < vs.len()
        invariant
            i <= vs@.len(),
            total == sat_usize(spec_char_count(vs@.take(i as int), c)),
        decreases vs@.len() - i,
    {
        let s: &String = &vs[i];
        let n: usize = s.as_str().unicode_len();
        let mut j: usize = 0;
        while j < n
            invariant
                j <= n,
                n == s@.len(),
                s == vs@[i as int],
                i < vs@.len(),
                total == sat_usize(
                    spec_char_count(vs@.take(i as int), c) + spec_char_count_in(
                        s@.subrange(0, j as int),
                        c,
                    ),
                ),
            decreases n - j,
        {
            let ch: char = s.as_str().get_char(j);
            proof {
                assert(s@.subrange(0, j + 1).drop_last() =~= s@.subrange(0, j as int));
                assert(s@.subrange(0, j + 1).last() == s@[j as int]);
                lemma_char_count_nonneg(vs@.take(i as int), c);
                lemma_char_count_in_nonneg(s@.subrange(0, j as int), c);
            }
            if ch == c {
                total = sat_add1(total);
            }
            j = j + 1;
        }
        proof {
            assert(s@.subrange(0, n as int) =~= s@);
            assert(vs@.take(i + 1).drop_last() =~= vs@.take(i as int));
            assert(vs@.take(i + 1).last() == vs@[i as int]);
        }
        i = i + 1;
    }
    proof {
        assert(vs@.take(vs@.len() as int) =~= vs@);
    }
    total
}

/// The names of the varchar columns, in insertion order.
pub open spec fn spec_varchar_names(cols: Seq<(String, ColumnData)>) -> Seq<Seq<char>>
    decreases cols.len(),
{
    if cols.len() == 0 {
        Seq::empty()
    } else if cols[0].1 is Varchar {
        seq![cols[0].0@] + spec_varchar_names(cols.drop_first())
    } else {
        spec_varchar_names(cols.drop_first())
    }
}

/// A character is listed in a counts list.
pub open spec fn spec_char_listed(counts: Seq<(char, usize)>, c: char) -> bool {
    exists|m: int| 0 <= m < counts.len() && (#[trigger] counts[m]).0 == c
}

/// One output entry describes some varchar column: its name, exact positive
/// counts for every listed character, and every ASCII character that occurs
/// in the column is listed.
pub open spec fn ascii_counts_entry_ok(
    cols: Seq<(String, ColumnData)>,
    e: (String, Vec<(char, usize)>),
) -> bool {
    exists|i: int|
        0 <= i < cols.len() && e.0@ == (#[trigger] cols[i]).0@ && (cols[i].1
            matches ColumnData::Varchar(vs) && (forall|m: int|
            0 <= m < e.1@.len() ==> (#[trigger] e.1@[m]).1 == sat_usize(
                spec_char_count(vs@, e.1@[m].0),
            ) && e.1@[m].1 > 0 && (e.1@[m].0 as int) < 128) && (forall|c: char|
            (c as u32) < 128 && spec_char_count(vs@, c) > 0 ==> spec_char_listed(e.1@, c)))
}

impl Table {
    /// Count ASCII characters for every varchar column: one entry per
    /// varchar column, in insertion order, listing exactly the ASCII
    /// characters that occur, each with its occurrence count.
    pub fn calculate_ascii_counts(&self) -> (r: Vec<(String, Vec<(char, usize)>)>)
        ensures
            forall|k: int| 0 <= k < r@.len() ==> ascii_counts_entry_ok(
                self.columns@,
                #[trigger] r@[k],
            ),
            r@.map_values(|e: (String, Vec<(char, usize)>)| e.0@) == spec_varchar_names(
                self.columns@,
            ),
    {
        let mut out: Vec<(String, Vec<(char, usize)>)> = Vec::new();
        let mut i: usize = 0;
        proof {
            assert(self.columns@.skip(0) =~= self.columns@);
            assert(out@.map_values(|e: (String, Vec<(char, usize)>)| e.0@) + spec_varchar_names(
                self.columns@,
            ) =~= spec_varchar_names(self.columns@));
        }
        while i < self.columns.len()
            invariant
                i <= self.columns@.len(),
                forall|k: int| 0 <= k < out@.len() ==> ascii_counts_entry_ok(
                    self.columns@,
                    #[trigger] out@[k],
                ),
                out@.map_values(|e: (String, Vec<(char, usize)>)| e.0@) + spec_varchar_names(
                    self.columns@.skip(i as int),
                ) == spec_varchar_names(self.columns@),
            decreases self.columns@.len() - i,
        {
            let ghost rem = self.columns@.skip(i as int);
            proof {
                assert(rem[0] == self.columns@[i as int]);
                assert(rem.drop_first() =~= self.columns@.skip(i + 1));
            }
            match &self.columns[i].1 {
                ColumnData::Varchar(vs) => {
                    let mut counts: Vec<(char, usize)> = Vec::new();
                    let mut code: u8 = 0;
                    while code < 128
                        invariant
                            code <= 128,
                            vs == &(match self.columns@[i as int].1 {
                                ColumnData::Varchar(v) => v,
                                ColumnData::Int64(_) => arbitrary(),
                            }),
                            i < self.columns@.len(),
                            self.columns@[i as int].1 matches ColumnData::Varchar(_),
                            forall|m: int| 0 <= m < counts@.len() ==> (#[trigger] counts@[m]).1
                                == sat_usize(spec_char_count(vs@, counts@[m].0))
                                && counts@[m].1 > 0 && (counts@[m].0 as int) < 128,
                            forall|c: char|
                                (c as u32) < code as u32 && spec_char_count(vs@, c) > 0
                                    ==> spec_char_listed(counts@, c),
                        decreases 128 - code,
                    {
                        let c: char = code as char;
                        proof {
                            assert((c as int) < 128);
                            assert(c as u32 == code as u32);
                        }
                        let n: usize = count_char(vs, c);
                        let ghost pre_counts = counts@;
                        if n > 0 {
                            counts.push((c, n));
                            proof {
                                assert(counts@[counts@.len() - 1].0 == c);
                            }
                        }
                        proof {
                            lemma_char_count_nonneg(vs@, c);
                            assert forall|c2: char|
                                (c2 as u32) < code as u32 + 1 && spec_char_count(vs@, c2)
                                    > 0 implies spec_char_listed(counts@, c2) by {
                                if (c2 as u32) < code as u32 {
                                    assert(spec_char_listed(pre_counts, c2));
                                    let m = choose|m: int|
                                        0 <= m < pre_counts.len() && (
                                        #[trigger] pre_counts[m]).0 == c2;
                                    assert(counts@[m] == pre_counts[m]);
                                    assert(counts@[m].0 == c2);
                                } else {
                                    assert(c2 as u32 == c as u32);
                                    vstd::utf8::char_u32_cast(c2, c2 as u32);
                                    vstd::utf8::char_u32_cast(c, c as u32);
                                    assert(c2 == c);
                                    assert(sat_usize(spec_char_count(vs@, c)) > 0);
                                    assert(counts@[counts@.len() - 1].0 == c2);
                                }
                            }
                        }
                        code = code + 1;
                    }
                    let name: String = self.columns[i].0.clone();
                    let ghost pre_out = out@;
                    out.push((name, counts));
                    proof {
                        let names = |e: (String, Vec<(char, usize)>)| e.0@;
                        assert(out@.map_values(names) =~= pre_out.map_values(names).push(
                            name@,
                        ));
                        assert(spec_varchar_names(rem) == seq![name@] + spec_varchar_names(
                            rem.drop_first(),
                        ));
                        assert(pre_out.map_values(names) + (seq![name@] + spec_varchar_names(
                            rem.drop_first(),
                        )) =~= out@.map_values(names) + spec_varchar_names(rem.drop_first()));
                        assert forall|k: int| 0 <= k < out@.len() implies ascii_counts_entry_ok(
                            self.columns@,
                            #[trigger] out@[k],
                        ) by {
                            if k < pre_out.len() {
                                assert(out@[k] == pre_out[k]);
                            } else {
                                assert(out@[k] == (name, counts));
                                let e = out@[k];
                                assert(0 <= i < self.columns@.len() && e.0@ == self.columns@[
                                    i as int
                                ].0@ && (self.columns@[i as int].1 matches ColumnData::Varchar(
                                    vs2,
                                ) && forall|m: int|
                                    0 <= m < e.1@.len() ==> (#[trigger] e.1@[m]).1 == sat_usize(
                                        spec_char_count(vs2@, e.1@[m].0),
                                    ) && e.1@[m].1 > 0 && (e.1@[m].0 as int) < 128));
                            }
                        }
                    }
                },
                ColumnData::Int64(_) => {
                    proof {
                        assert(spec_varchar_names(rem) == spec_varchar_names(rem.drop_first()));
                    }
                },
            }
            i = i + 1;
        }
        proof {
            assert(self.columns@.skip(self.columns@.len() as int) =~= Seq::<(
                String,
                ColumnData,
            )>::empty());
            assert(spec_varchar_names(Seq::<(String, ColumnData)>::empty())
                == Seq::<Seq<char>>::empty());
            assert(out@.map_values(|e: (String, Vec<(char, usize)>)| e.0@) + Seq::<
                Seq<char>,
            >::empty() =~= out@.map_values(|e: (String, Vec<(char, usize)>)| e.0@));
        }
        out
    }

    /// The total number of ASCII characters stored in a varchar column, or
    /// nothing when no varchar column of that name exists.
    pub fn get_total_ascii_count(&self, column_name: &str) -> (r: Option<usize>)
        ensures
            match r {
                Some(n) => (crate::table::spec_find_col(self.columns@, column_name@)
                    matches Some(c) && c matches ColumnData::Varchar(vs) && n == sat_usize(
                    spec_ascii_count(vs@),
                )),
                None => !(crate::table::spec_find_col(self.columns@, column_name@) matches Some(
                    c,
                ) && c is Varchar),
            },
    {
        match self.get_column(column_name) {
            Some(col) => {
                match col {
                    ColumnData::Varchar(vs) => {
                        let mut total: usize = 0;
                        let mut i: usize = 0;
                        while i < vs.len()
                            invariant
                                i <= vs@.len(),
                                total == sat_usize(spec_ascii_count(vs@.take(i as int))),
                            decreases vs@.len() - i,
                        {
                            let s: &String = &vs[i];
                            let n: usize = s.as_str().unicode_len();
                            let mut j: usize = 0;
                            while j < n
                                invariant
                                    j <= n,
                                    n == s@.len(),
                                    s == vs@[i as int],
                                    i < vs@.len(),
                                    total == sat_usize(
                                        spec_ascii_count(vs@.take(i as int))
                                            + spec_ascii_count_in(s@.subrange(0, j as int)),
                                    ),
                                decreases n - j,
                            {
                                let ch: char = s.as_str().get_char(j);
                                proof {
                                    assert(s@.subrange(0, j + 1).drop_last() =~= s@.subrange(
                                        0,
                                        j as int,
                                    ));
                                    assert(s@.subrange(0, j + 1).last() == s@[j as int]);
                                    lemma_ascii_count_nonneg(vs@.take(i as int));
                                    lemma_ascii_count_in_nonneg(s@.subrange(0, j as int));
                                }
                                if (ch as u32) < 128 {
                                    total = sat_add1(total);
                                }
                                j = j + 1;
                            }
                            proof {
                                assert(s@.subrange(0, n as int) =~= s@);
                                assert(vs@.take(i + 1).drop_last() =~= vs@.take(i as int));
                                assert(vs@.take(i + 1).last() == vs@[i as int]);
                            }
                            i = i + 1;
                        }
                        proof {
                            assert(vs@.take(vs@.len() as int) =~= vs@);
                        }
                        Some(total)
                    },
                    ColumnData::Int64(_) => None,
                }
            },
            None => None,
        }
    }
}

} // verus!
