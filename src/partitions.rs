use crate::numeric::{int_text, push_i32};
use crate::text::{chars_of, string_of};
use vstd::prelude::*;

verus! {

fn push_str(out: &mut Vec<char>, s: &str)
    ensures
        final(out)@ == old(out)@ + s@,
{
    let cs = chars_of(s);
    let mut i: usize = 0;
    while i < cs.len()
        invariant
            0 <= i <= cs@.len(),
            out@ == old(out)@ + cs@.take(i as int),
        decreases cs@.len() - i,
    {
        out.push(cs[i]);
        assert(cs@.take(i as int + 1) =~= cs@.take(i as int).push(cs@[i as int]));
        i += 1;
    }
    assert(cs@.take(cs@.len() as int) =~= cs@);
}

/// The statement that creates partition `{table}_y{start}_to_y{end}` of
/// `table` for the values from `from` up to `to`.
pub open spec fn partition_text(
    start: Seq<char>,
    end: Seq<char>,
    table: Seq<char>,
    from: Seq<char>,
    to: Seq<char>,
) -> Seq<char> {
    "CREATE TABLE "@ + table + "_y"@ + start + "_to_y"@ + end + " PARTITION OF "@ + table
        + " FOR VALUES FROM ('"@ + from + "') TO ('"@ + to + "')"@
}

pub fn format_partition(start: &str, end: &str, table: &str, from: &str, to: &str) -> (r: String)
    ensures
        r@ == partition_text(start@, end@, table@, from@, to@),
{
    let mut out: Vec<char> = Vec::new();
    push_str(&mut out, "CREATE TABLE ");
    push_str(&mut out, table);
    push_str(&mut out, "_y");
    push_str(&mut out, start);
    push_str(&mut out, "_to_y");
    push_str(&mut out, end);
    push_str(&mut out, " PARTITION OF ");
    push_str(&mut out, table);
    push_str(&mut out, " FOR VALUES FROM ('");
    push_str(&mut out, from);
    push_str(&mut out, "') TO ('");
    push_str(&mut out, to);
    push_str(&mut out, "')");
    string_of(out.as_slice())
}

/// The years at which the yearly data partitions start and end: 1950,
/// 2000, 2010, and each year from 2015 to 2030.
pub open spec fn boundary_years_spec() -> Seq<i32> {
    seq![1950i32, 2000i32, 2010i32] + Seq::new(16, |i: int| (2015 + i) as i32)
}

pub fn partition_boundary_years() -> (r: Vec<i32>)
    ensures
        r@ == boundary_years_spec(),
{
    let mut r: Vec<i32> = vec![1950, 2000, 2010];
    let mut y: i32 = 2015;
    while y <= 2030
        invariant
            2015 <= y <= 2031,
            r@ == seq![1950i32, 2000i32, 2010i32] + Seq::new((y - 2015) as nat, |i: int| (2015 + i) as i32),
        decreases 2031 - y,
    {
        r.push(y);
        assert(r@ =~= seq![1950i32, 2000i32, 2010i32] + Seq::new((y + 1 - 2015) as nat, |i: int| (2015 + i) as i32));
        y += 1;
    }
    assert(r@ =~= boundary_years_spec());
    r
}

/// The start of a year, as a partition bound.
pub open spec fn year_start_text(y: i32) -> Seq<char> {
    int_text(y as int) + "-01-01 00:00:00+00"@
}

/// The statement that creates, if absent, the partition of `public.{table}`
/// for the years from `y1` up to `y2`.
pub open spec fn window_text(table: Seq<char>, y1: i32, y2: i32) -> Seq<char> {
    "CREATE TABLE IF NOT EXISTS "@ + table + "_y"@ + int_text(y1 as int) + "_to_y"@ + int_text(
        y2 as int,
    ) + " PARTITION OF public."@ + table + "\nFOR VALUES FROM ('"@ + year_start_text(y1)
        + "') TO ('"@ + year_start_text(y2) + "');\n"@
}

/// One statement for each pair of consecutive boundary years.
pub fn create_table_partitions(table: &str, years: &Vec<i32>) -> (r: Vec<String>)
    ensures
        years@.len() == 0 ==> r@.len() == 0,
        years@.len() >= 1 ==> r@.len() == years@.len() - 1,
        forall|k: int|
            0 <= k < r@.len() ==> (#[trigger] r@[k])@ == window_text(table@, years@[k], years@[k + 1]),
{
    let mut r: Vec<String> = Vec::new();
    if years.len() == 0 {
        return r;
    }
    let mut i: usize = 0;
    while i < years.len() - 1
        invariant
            0 <= i < years@.len(),
            r@.len() == i,
            forall|k: int|
                0 <= k < r@.len() ==> (#[trigger] r@[k])@ == window_text(
                    table@,
                    years@[k],
                    years@[k + 1],
                ),
        decreases years@.len() - i,
    {
        let y1 = years[i];
        let y2 = years[i + 1];
        let mut out: Vec<char> = Vec::new();
        push_str(&mut out, "CREATE TABLE IF NOT EXISTS ");
        push_str(&mut out, table);
        push_str(&mut out, "_y");
        push_i32(&mut out, y1);
        push_str(&mut out, "_to_y");
        push_i32(&mut out, y2);
        push_str(&mut out, " PARTITION OF public.");
        push_str(&mut out, table);
        push_str(&mut out, "\nFOR VALUES FROM ('");
        push_i32(&mut out, y1);
        push_str(&mut out, "-01-01 00:00:00+00");
        push_str(&mut out, "') TO ('");
        push_i32(&mut out, y2);
        push_str(&mut out, "-01-01 00:00:00+00");
        push_str(&mut out, "');\n");
        assert(out@ =~= window_text(table@, y1, y2));
        r.push(string_of(out.as_slice()));
        i += 1;
    }
    r
}

} // verus!
