use crate::kldata::{
    batch_of, batch_text, column_tokens, columns_from, columns_of, header_fields, header_fold,
    header_of, header_step, header_text, id_tokens, index_of, name_ok, obs_count, row_of, times_valid,
    row_text, rows_of, value_of, value_text, value_texts, values_of, word_add, word_kldata,
    word_messageid, word_nationalnr, word_type, ChunkView, HeaderAcc, IdView, ObsinnHeader,
    RowView, ValueView,
};
use crate::numeric::{
    all_digits, digits_value, int_text, lemma_digits_nonneg, lemma_int_text_i32,
    lemma_nat_text, lemma_nat_text_usize, nat_text,
};
use crate::obstime::{lemma_time_round_trip, time_of, time_text};
use crate::params::ParamView;
use crate::text::{
    first_index, join_spec, lacks, lemma_first_index, lemma_first_index_none,
    lemma_first_index_unique, lemma_split_join, lemma_split_len, lines_spec, split_spec,
};
use vstd::prelude::*;

verus! {

/// No piece of a split holds the separator, nor a character the text lacks.
pub proof fn lemma_split_lacks(s: Seq<char>, sep: char, c: char)
    requires
        c == sep || lacks(s, c),
    ensures
        forall|k: int|
            0 <= k < split_spec(s, sep).len() ==> lacks(#[trigger] split_spec(s, sep)[k], c),
    decreases s.len(),
{
    lemma_split_len(s, sep);
    if s.len() > 0 {
        let p = s.drop_last();
        assert forall|i: int| c != sep && 0 <= i < p.len() implies p[i] != c by {
            assert(p[i] == s[i]);
        }
        lemma_split_lacks(p, sep, c);
        lemma_split_len(p, sep);
        let prev = split_spec(p, sep);
        let cur = split_spec(s, sep);
        assert(s.last() == s[s.len() - 1]);
        assert forall|k: int| 0 <= k < cur.len() implies lacks(#[trigger] cur[k], c) by {
            if s.last() == sep {
                if k < prev.len() {
                    assert(cur[k] == prev[k]);
                }
            } else {
                if k < prev.len() - 1 {
                    assert(cur[k] == prev[k]);
                } else {
                    assert(cur[k] == prev.last().push(s.last()));
                    assert(lacks(prev[prev.len() - 1], c));
                    assert forall|i: int| 0 <= i < cur[k].len() implies cur[k][i] != c by {
                        if i < prev.last().len() {
                            assert(cur[k][i] == prev.last()[i]);
                        }
                    }
                }
            }
        }
    }
}

/// The lines of a text hold no newline.
pub proof fn lemma_lines_lack_newline(s: Seq<char>)
    ensures
        forall|k: int| 0 <= k < lines_spec(s).len() ==> lacks(#[trigger] lines_spec(s)[k], '\n'),
{
    lemma_split_lacks(s, '\n', '\n');
    let ps = split_spec(s, '\n');
    assert forall|k: int| 0 <= k < lines_spec(s).len() implies lacks(
        #[trigger] lines_spec(s)[k],
        '\n',
    ) by {
        assert(lines_spec(s)[k] == ps[k]);
    }
}

proof fn lemma_lacks_concat(a: Seq<char>, b: Seq<char>, c: char)
    requires
        lacks(a, c),
        lacks(b, c),
    ensures
        lacks(a + b, c),
{
    assert forall|i: int| 0 <= i < (a + b).len() implies (a + b)[i] != c by {
        if i < a.len() {
            assert((a + b)[i] == a[i]);
        } else {
            assert((a + b)[i] == b[i - a.len()]);
        }
    }
}

proof fn lemma_key_value_field(key: Seq<char>, val: Seq<char>)
    requires
        lacks(key, '='),
    ensures
        first_index(key + seq!['='] + val, '=') == key.len(),
        (key + seq!['='] + val).take(key.len() as int) == key,
        (key + seq!['='] + val).skip(key.len() as int + 1) == val,
{
    let f = key + seq!['='] + val;
    assert(f[key.len() as int] == '=');
    assert forall|j: int| 0 <= j < key.len() implies f[j] != '=' by {
        assert(f[j] == key[j]);
    }
    lemma_first_index_unique(f, '=', key.len() as int);
    assert(f.take(key.len() as int) =~= key);
    assert(f.skip(key.len() as int + 1) =~= val);
}

/// Reading the header line that was written for a header gives it back.
pub proof fn lemma_header_round_trip(message_id: usize, station_id: i32, type_id: i32)
    ensures
        header_of(header_text(message_id, station_id, type_id)) == Some(
            ObsinnHeader { station_id, type_id, message_id },
        ),
{
    let fs = header_fields(message_id, station_id, type_id);
    let st = int_text(station_id as int);
    let ty = int_text(type_id as int);
    let mi = nat_text(message_id as nat);
    lemma_int_text_i32(station_id);
    lemma_int_text_i32(type_id);
    lemma_nat_text_usize(message_id);
    let nat_key = word_nationalnr();
    let type_key = word_type();
    let msg_key = word_messageid();
    assert(lacks(nat_key, '/') && lacks(nat_key, '='));
    assert(lacks(type_key, '/') && lacks(type_key, '='));
    assert(lacks(msg_key, '/') && lacks(msg_key, '='));
    assert(lacks(seq!['='], '/'));
    lemma_lacks_concat(nat_key, seq!['='], '/');
    lemma_lacks_concat(nat_key + seq!['='], st, '/');
    lemma_lacks_concat(type_key, seq!['='], '/');
    lemma_lacks_concat(type_key + seq!['='], ty, '/');
    lemma_lacks_concat(msg_key, seq!['='], '/');
    lemma_lacks_concat(msg_key + seq!['='], mi, '/');
    assert(lacks(word_kldata(), '/'));
    assert forall|i: int| 0 <= i < fs.len() implies lacks(#[trigger] fs[i], '/') by {
        if i == 0 {
        } else if i == 1 {
        } else if i == 2 {
        } else {
        }
    }
    lemma_split_join(fs, '/');
    let rest = split_spec(header_text(message_id, station_id, type_id), '/').skip(1);
    assert(rest =~= seq![fs[1], fs[2], fs[3]]);
    lemma_key_value_field(nat_key, st);
    lemma_key_value_field(type_key, ty);
    lemma_key_value_field(msg_key, mi);
    let f1 = fs[1];
    let f2 = fs[2];
    let f3 = fs[3];
    assert(f1[0] == 'n' && f2[0] == 't' && f3[0] == 'm');
    assert(word_add()[0] == 'a');
    assert(f1 != word_add());
    assert(f2 != word_add());
    assert(f3 != word_add());
    assert(type_key != nat_key);
    assert(msg_key != nat_key && msg_key != type_key);
    let a0 = HeaderAcc { station_id: None, type_id: None, message_id: None };
    let a1 = HeaderAcc { station_id: Some(station_id), type_id: None, message_id: None };
    let a2 = HeaderAcc { station_id: Some(station_id), type_id: Some(type_id), message_id: None };
    let a3 = HeaderAcc {
        station_id: Some(station_id),
        type_id: Some(type_id),
        message_id: Some(message_id),
    };
    assert(header_step(a0, f1) == Some(a1));
    assert(header_step(a1, f2) == Some(a2));
    assert(header_step(a2, f3) == Some(a3));
    assert(rest.drop_last() =~= seq![f1, f2]);
    assert(rest.drop_last().drop_last() =~= seq![f1]);
    assert(rest.drop_last().drop_last().drop_last() =~= Seq::<Seq<char>>::empty());
    assert(seq![f1].drop_last() =~= Seq::<Seq<char>>::empty());
    assert(header_fold(Seq::<Seq<char>>::empty()) == Some(a0));
    assert(header_fold(seq![f1]) == Some(a1));
    assert(seq![f1, f2].drop_last() =~= seq![f1]);
    assert(header_fold(seq![f1, f2]) == Some(a2));
    assert(header_fold(rest) == Some(a3));
}

proof fn lemma_column_tokens_front(cols: Seq<IdView>)
    requires
        cols.len() >= 1,
    ensures
        column_tokens(cols) == id_tokens(cols[0]) + column_tokens(cols.skip(1)),
    decreases cols.len(),
{
    if cols.len() == 1 {
        assert(cols.drop_last() =~= Seq::<IdView>::empty());
        assert(cols.skip(1) =~= Seq::<IdView>::empty());
        assert(column_tokens(cols) =~= id_tokens(cols[0]) + column_tokens(cols.skip(1)));
    } else {
        lemma_column_tokens_front(cols.drop_last());
        assert(cols.drop_last().skip(1) =~= cols.skip(1).drop_last());
        assert(cols.skip(1).last() == cols.last());
        assert(column_tokens(cols) =~= id_tokens(cols[0]) + column_tokens(cols.skip(1)));
    }
}

/// Columns read from pieces free of newlines are written as pieces that
/// read back to the same columns.
proof fn lemma_columns_round_trip(toks: Seq<Seq<char>>, cols: Seq<IdView>)
    requires
        columns_from(toks) == Some(cols),
        forall|k: int| 0 <= k < toks.len() ==> lacks(#[trigger] toks[k], '\n'),
    ensures
        columns_from(column_tokens(cols)) == Some(cols),
        forall|k: int|
            0 <= k < column_tokens(cols).len() ==> lacks(#[trigger] column_tokens(cols)[k], ',')
                && lacks(column_tokens(cols)[k], '\n'),
        toks.len() >= 1 ==> cols.len() >= 1,
    decreases toks.len(),
{
    if toks.len() == 0 {
        assert(cols =~= Seq::<IdView>::empty());
    } else {
        let t = toks[0];
        let p = first_index(t, '(');
        lemma_first_index(t, '(');
        if p < 0 {
            let rest = columns_from(toks.skip(1))->0;
            assert(columns_from(toks.skip(1)) is Some);
            assert forall|k: int| 0 <= k < toks.skip(1).len() implies lacks(
                #[trigger] toks.skip(1)[k],
                '\n',
            ) by {
                assert(toks.skip(1)[k] == toks[k + 1]);
            }
            lemma_columns_round_trip(toks.skip(1), rest);
            let id = IdView { code: t, sensor_and_level: None };
            assert(cols =~= seq![id] + rest);
            assert(cols[0] == id);
            assert(cols.skip(1) =~= rest);
            lemma_column_tokens_front(cols);
            let ct = column_tokens(cols);
            assert(ct =~= seq![t] + column_tokens(rest));
            assert(ct[0] == t);
            assert(ct.skip(1) =~= column_tokens(rest));
            lemma_first_index_none(t, '(');
            assert(columns_from(ct) == Some(cols));
            assert forall|k: int| 0 <= k < ct.len() implies lacks(#[trigger] ct[k], ',') && lacks(
                ct[k],
                '\n',
            ) by {
                if k > 0 {
                    assert(ct[k] == column_tokens(rest)[k - 1]);
                }
            }
        } else {
            let name = t.take(p);
            let st = t.skip(p + 1);
            let lt = toks[1];
            let rest = columns_from(toks.skip(2))->0;
            assert(columns_from(toks.skip(2)) is Some);
            assert forall|k: int| 0 <= k < toks.skip(2).len() implies lacks(
                #[trigger] toks.skip(2)[k],
                '\n',
            ) by {
                assert(toks.skip(2)[k] == toks[k + 2]);
            }
            lemma_columns_round_trip(toks.skip(2), rest);
            let s = index_of(st)->0;
            let l = index_of(lt.drop_last())->0;
            lemma_digits_nonneg(st);
            lemma_digits_nonneg(lt.drop_last());
            let id = IdView { code: name, sensor_and_level: Some((s, l)) };
            assert(cols =~= seq![id] + rest);
            assert(cols[0] == id);
            assert(cols.skip(1) =~= rest);
            lemma_column_tokens_front(cols);
            let ct = column_tokens(cols);
            let t1 = name + seq!['('] + int_text(s as int);
            let t2 = int_text(l as int) + seq![')'];
            assert(ct =~= seq![t1, t2] + column_tokens(rest));
            assert(ct[0] == t1 && ct[1] == t2);
            assert(ct.skip(2) =~= column_tokens(rest));
            lemma_nat_text(s as nat);
            lemma_nat_text(l as nat);
            lemma_int_text_i32(s);
            lemma_int_text_i32(l);
            assert(t1[name.len() as int] == '(');
            assert forall|j: int| 0 <= j < name.len() implies t1[j] != '(' by {
                assert(t1[j] == name[j]);
            }
            lemma_first_index_unique(t1, '(', name.len() as int);
            assert(t1.take(name.len() as int) =~= name);
            assert(t1.skip(name.len() as int + 1) =~= nat_text(s as nat));
            assert(t2.drop_last() =~= nat_text(l as nat));
            assert(index_of(nat_text(s as nat)) == Some(s));
            assert(index_of(nat_text(l as nat)) == Some(l));
            assert(columns_from(ct) == Some(cols));
            assert(lacks(name, '\n')) by {
                assert forall|j: int| 0 <= j < name.len() implies name[j] != '\n' by {
                    assert(name[j] == t[j]);
                }
            }
            lemma_lacks_concat(name, seq!['('], ',');
            lemma_lacks_concat(name + seq!['('], int_text(s as int), ',');
            lemma_lacks_concat(name, seq!['('], '\n');
            lemma_lacks_concat(name + seq!['('], int_text(s as int), '\n');
            lemma_lacks_concat(int_text(l as int), seq![')'], ',');
            lemma_lacks_concat(int_text(l as int), seq![')'], '\n');
            assert forall|k: int| 0 <= k < ct.len() implies lacks(#[trigger] ct[k], ',') && lacks(
                ct[k],
                '\n',
            ) by {
                if k > 1 {
                    assert(ct[k] == column_tokens(rest)[k - 2]);
                }
            }
        }
    }
}

/// The values read from some texts are written as those texts.
proof fn lemma_values_texts(
    reg: Seq<(Seq<char>, ParamView)>,
    cols: Seq<IdView>,
    vals: Seq<Seq<char>>,
    vs: Seq<ValueView>,
)
    requires
        values_of(reg, cols, vals) == Some(vs),
    ensures
        value_texts(vs) == vals,
    decreases vals.len(),
{
    if vals.len() == 0 {
        assert(value_texts(vs) =~= vals);
    } else {
        let pv = values_of(reg, cols, vals.drop_last())->0;
        lemma_values_texts(reg, cols, vals.drop_last(), pv);
        let last = value_of(reg, cols[vals.len() - 1].code, vals.last())->0;
        assert(vs == pv.push(last));
        assert(value_text(last) == vals.last());
        let pm = value_texts(pv);
        assert(pm == vals.drop_last());
        assert forall|i: int| 0 <= i < vals.len() implies #[trigger] value_texts(vs)[i]
            == vals[i] by {
            if i < vals.len() - 1 {
                assert(vs[i] == pv[i]);
                assert(pm[i] == vals.drop_last()[i]);
            }
        }
        assert(value_texts(vs) =~= vals);
    }
}

proof fn lemma_join_last(parts: Seq<Seq<char>>, sep: char)
    requires
        parts.len() >= 1,
        parts.last().len() >= 1,
    ensures
        join_spec(parts, sep).len() >= 1,
        join_spec(parts, sep).last() == parts.last().last(),
{
    if parts.len() == 1 {
    } else {
        let j = join_spec(parts.drop_last(), sep) + seq![sep] + parts.last();
        assert(j.last() == parts.last().last());
    }
}

proof fn lemma_row_round_trip(
    reg: Seq<(Seq<char>, ParamView)>,
    cols: Seq<IdView>,
    line: Seq<char>,
    r: RowView,
)
    requires
        row_of(reg, cols, line) == Some(r),
        lacks(line, '\n'),
    ensures
        row_of(reg, cols, row_text(r)) == Some(r),
        lacks(row_text(r), '\n'),
        row_text(r).len() >= 1,
{
    let toks = split_spec(line, ',');
    lemma_split_len(line, ',');
    lemma_split_lacks(line, ',', ',');
    lemma_split_lacks(line, ',', '\n');
    let t = time_of(toks[0])->0;
    lemma_time_round_trip(t);
    let vals = toks.skip(1);
    lemma_values_texts(reg, cols, vals, r.values);
    let texts = value_texts(r.values);
    assert(texts == vals);
    let parts = seq![time_text(r.timestamp)] + texts;
    assert(lacks(time_text(t), ',') && lacks(time_text(t), '\n')) by {
        assert forall|i: int| 0 <= i < time_text(t).len() implies time_text(t)[i] != ','
            && time_text(t)[i] != '\n' by {
            assert(all_digits(time_text(t)));
        }
    }
    assert forall|k: int| 0 <= k < parts.len() implies lacks(#[trigger] parts[k], ',') && lacks(
        parts[k],
        '\n',
    ) by {
        if k > 0 {
            assert(parts[k] == toks[k]);
        }
    }
    lemma_split_join(parts, ',');
    assert(split_spec(row_text(r), ',') == parts);
    assert(parts.skip(1) =~= vals);
    assert(parts[0] == time_text(t));
    assert(row_of(reg, cols, row_text(r)) == Some(r));
    lemma_join_lacks(parts, ',', '\n');
    assert(row_text(r).len() >= 1) by {
        if parts.len() == 1 {
        } else {
            lemma_join_len(parts, ',');
        }
    }
}

proof fn lemma_join_len(parts: Seq<Seq<char>>, sep: char)
    requires
        parts.len() >= 2,
    ensures
        join_spec(parts, sep).len() >= 1,
{
}

/// Joining pieces free of a character other than the separator gives a
/// text free of it.
proof fn lemma_join_lacks(parts: Seq<Seq<char>>, sep: char, c: char)
    requires
        c != sep,
        forall|k: int| 0 <= k < parts.len() ==> lacks(#[trigger] parts[k], c),
    ensures
        lacks(join_spec(parts, sep), c),
    decreases parts.len(),
{
    if parts.len() == 0 {
    } else if parts.len() == 1 {
        assert(lacks(parts[0], c));
    } else {
        assert forall|k: int| 0 <= k < parts.drop_last().len() implies lacks(
            #[trigger] parts.drop_last()[k],
            c,
        ) by {
            assert(parts.drop_last()[k] == parts[k]);
        }
        lemma_join_lacks(parts.drop_last(), sep, c);
        assert(lacks(parts[parts.len() - 1], c));
        lemma_lacks_concat(join_spec(parts.drop_last(), sep), seq![sep], c);
        lemma_lacks_concat(join_spec(parts.drop_last(), sep) + seq![sep], parts.last(), c);
    }
}

proof fn lemma_rows_round_trip(
    reg: Seq<(Seq<char>, ParamView)>,
    cols: Seq<IdView>,
    lines: Seq<Seq<char>>,
    rs: Seq<RowView>,
)
    requires
        rows_of(reg, cols, lines) == Some(rs),
        forall|k: int| 0 <= k < lines.len() ==> lacks(#[trigger] lines[k], '\n'),
    ensures
        rows_of(reg, cols, rs.map_values(|r: RowView| row_text(r))) == Some(rs),
        forall|k: int|
            0 <= k < rs.len() ==> lacks(#[trigger] row_text(rs[k]), '\n') && row_text(
                rs[k],
            ).len() >= 1,
        rs.len() == lines.len(),
    decreases lines.len(),
{
    let texts = rs.map_values(|r: RowView| row_text(r));
    if lines.len() == 0 {
        assert(texts =~= Seq::<Seq<char>>::empty());
    } else {
        let prs = rows_of(reg, cols, lines.drop_last())->0;
        assert forall|k: int| 0 <= k < lines.drop_last().len() implies lacks(
            #[trigger] lines.drop_last()[k],
            '\n',
        ) by {
            assert(lines.drop_last()[k] == lines[k]);
        }
        lemma_rows_round_trip(reg, cols, lines.drop_last(), prs);
        let r = row_of(reg, cols, lines.last())->0;
        assert(lacks(lines[lines.len() - 1], '\n'));
        lemma_row_round_trip(reg, cols, lines.last(), r);
        assert(rs == prs.push(r));
        assert(texts.drop_last() =~= prs.map_values(|r: RowView| row_text(r)));
        assert(texts.last() == row_text(r));
        assert forall|k: int| 0 <= k < rs.len() implies lacks(#[trigger] row_text(rs[k]), '\n')
            && row_text(rs[k]).len() >= 1 by {
            if k < prs.len() {
                assert(rs[k] == prs[k]);
            }
        }
    }
}

/// Writing what a batch gives and reading the text again gives the same
/// message id and observations.
pub proof fn lemma_parse_emit_round_trip(reg: Seq<(Seq<char>, ParamView)>, msg: Seq<char>)
    requires
        batch_of(reg, msg) is Some,
    ensures
        match batch_of(reg, msg) {
            Some((m, c)) => batch_of(reg, batch_text(m, c)) == Some((m, c)),
            None => true,
        },
{
    let (m, c) = batch_of(reg, msg)->0;
    let ls = lines_spec(msg);
    lemma_lines_lack_newline(msg);
    let h = header_of(ls[0])->0;
    lemma_header_round_trip(m, c.station_id, c.type_id);
    let toks = split_spec(ls[1], ',');
    lemma_split_len(ls[1], ',');
    assert(lacks(ls[1], '\n'));
    lemma_split_lacks(ls[1], ',', '\n');
    lemma_columns_round_trip(toks, c.columns);
    let ct = column_tokens(c.columns);
    lemma_split_join(ct, ',');
    let col_line = join_spec(ct, ',');
    assert(columns_of(col_line) == Some(c.columns));
    let body = ls.skip(2);
    assert forall|k: int| 0 <= k < body.len() implies lacks(#[trigger] body[k], '\n') by {
        assert(body[k] == ls[k + 2]);
    }
    lemma_rows_round_trip(reg, c.columns, body, c.rows);
    let texts = c.rows.map_values(|r: RowView| row_text(r));
    let ht = header_text(m, c.station_id, c.type_id);
    let parts = seq![ht, col_line] + texts;
    let out = batch_text(m, c);
    assert(out == join_spec(parts, '\n'));
    // every line of the written batch is free of newlines
    assert(lacks(ht, '\n')) by {
        lemma_int_text_i32(c.station_id);
        lemma_int_text_i32(c.type_id);
        lemma_nat_text_usize(m);
        let fs = header_fields(m, c.station_id, c.type_id);
        lemma_lacks_concat(word_nationalnr(), seq!['='], '\n');
        lemma_lacks_concat(word_nationalnr() + seq!['='], int_text(c.station_id as int), '\n');
        lemma_lacks_concat(word_type(), seq!['='], '\n');
        lemma_lacks_concat(word_type() + seq!['='], int_text(c.type_id as int), '\n');
        lemma_lacks_concat(word_messageid(), seq!['='], '\n');
        lemma_lacks_concat(word_messageid() + seq!['='], nat_text(m as nat), '\n');
        assert(lacks(word_kldata(), '\n'));
        assert forall|k: int| 0 <= k < fs.len() implies lacks(#[trigger] fs[k], '\n') by {
            if k == 0 {
            } else if k == 1 {
            } else if k == 2 {
            } else {
            }
        }
        lemma_join_lacks(fs, '/', '\n');
    }
    lemma_join_lacks(ct, ',', '\n');
    assert forall|k: int| 0 <= k < parts.len() implies lacks(#[trigger] parts[k], '\n') by {
        if k >= 2 {
            assert(parts[k] == row_text(c.rows[k - 2]));
        }
    }
    lemma_split_join(parts, '\n');
    // the written batch has at least one data line, so it ends in one
    assert(c.rows.len() >= 1) by {
        if c.rows.len() == 0 {
            assert(obs_count(c.rows) == 0);
        }
    }
    let last_row = c.rows[c.rows.len() - 1];
    assert(parts.last() == row_text(last_row));
    lemma_join_last(parts, '\n');
    assert(row_text(last_row).last() != '\n') by {
        assert(lacks(row_text(last_row), '\n'));
    }
    assert(lines_spec(out) == parts);
    assert(parts.skip(2) =~= texts);
    assert(header_of(parts[0]) == Some(ObsinnHeader { station_id: c.station_id, type_id: c.type_id, message_id: m }));
}

proof fn lemma_rows_times_valid(
    reg: Seq<(Seq<char>, ParamView)>,
    cols: Seq<IdView>,
    lines: Seq<Seq<char>>,
    rs: Seq<RowView>,
)
    requires
        rows_of(reg, cols, lines) == Some(rs),
    ensures
        forall|k: int| 0 <= k < rs.len() ==> (#[trigger] rs[k]).timestamp.valid(),
        forall|k: int| 0 <= k < rs.len() ==> (#[trigger] rs[k]).values.len() <= cols.len(),
    decreases lines.len(),
{
    if lines.len() > 0 {
        let prs = rows_of(reg, cols, lines.drop_last())->0;
        lemma_rows_times_valid(reg, cols, lines.drop_last(), prs);
        let r = row_of(reg, cols, lines.last())->0;
        assert(rs == prs.push(r));
        let toks = split_spec(lines.last(), ',');
        lemma_values_len(reg, cols, toks.skip(1), r.values);
        assert forall|k: int| 0 <= k < rs.len() implies (#[trigger] rs[k]).timestamp.valid() && rs[k].values.len() <= cols.len() by {
            if k < prs.len() {
                assert(rs[k] == prs[k]);
            }
        }
    }
}

proof fn lemma_values_len(
    reg: Seq<(Seq<char>, ParamView)>,
    cols: Seq<IdView>,
    vals: Seq<Seq<char>>,
    vs: Seq<ValueView>,
)
    requires
        values_of(reg, cols, vals) == Some(vs),
    ensures
        vs.len() == vals.len(),
        vs.len() <= cols.len(),
    decreases vals.len(),
{
    if vals.len() > 0 {
        lemma_values_len(reg, cols, vals.drop_last(), values_of(reg, cols, vals.drop_last())->0);
    }
}

/// What a batch gives can be written again: it has a column, every row's
/// time is a valid instant, and no row has more values than columns.
pub proof fn lemma_batch_emittable(reg: Seq<(Seq<char>, ParamView)>, msg: Seq<char>)
    requires
        batch_of(reg, msg) is Some,
    ensures
        match batch_of(reg, msg) {
            Some((m, c)) => c.columns.len() >= 1 && times_valid(c) && forall|k: int|
                0 <= k < c.rows.len() ==> (#[trigger] c.rows[k]).values.len() <= c.columns.len(),
            None => true,
        },
{
    let (m, c) = batch_of(reg, msg)->0;
    let ls = lines_spec(msg);
    lemma_lines_lack_newline(msg);
    assert(lacks(ls[1], '\n'));
    lemma_split_len(ls[1], ',');
    lemma_split_lacks(ls[1], ',', '\n');
    lemma_columns_round_trip(split_spec(ls[1], ','), c.columns);
    lemma_rows_times_valid(reg, c.columns, ls.skip(2), c.rows);
}

/// No row read against the columns has more values than there are columns.
pub proof fn lemma_rows_values_fit(
    reg: Seq<(Seq<char>, ParamView)>,
    cols: Seq<IdView>,
    lines: Seq<Seq<char>>,
    rs: Seq<RowView>,
)
    requires
        rows_of(reg, cols, lines) == Some(rs),
    ensures
        forall|k: int| 0 <= k < rs.len() ==> (#[trigger] rs[k]).values.len() <= cols.len(),
{
    lemma_rows_times_valid(reg, cols, lines, rs);
}

} // verus!
