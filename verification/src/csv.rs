use vstd::prelude::*;

verus! {

/// A field may stand in a CSV text unquoted: it holds no comma, quote,
/// carriage return or line feed.
pub open spec fn spec_plain_field(f: Seq<char>) -> bool {
    forall|i: int| 0 <= i < f.len() ==> #[trigger] f[i] != ',' && f[i] != '"' && f[i] != '\n'
        && f[i] != '\r'
}

/// Whether the text may stand in a record unquoted.
pub fn is_plain_field(s: &str) -> (r: bool)
    ensures
        r == spec_plain_field(s@),
{
    let n = s.unicode_len();
    let mut i: usize = 0;
    while i < n
        invariant
            i <= n,
            n == s@.len(),
            forall|j: int|
                0 <= j < i ==> #[trigger] s@[j] != ',' && s@[j] != '"' && s@[j] != '\n' && s@[j]
                    != '\r',
        decreases n - i,
    {
        let c = s.get_char(i);
        if c == ',' || c == '"' || c == '\n' || c == '\r' {
            return false;
        }
        i = i + 1;
    }
    true
}

/// The body of a CSV record: the fields joined by commas.
pub open spec fn spec_row_body(fields: Seq<Seq<char>>) -> Seq<char>
    decreases fields.len(),
{
    if fields.len() == 0 {
        Seq::empty()
    } else if fields.len() == 1 {
        fields[0]
    } else {
        spec_row_body(fields.drop_last()) + seq![','] + fields.last()
    }
}

/// A CSV record: its body and a line feed.
pub open spec fn spec_csv_row(fields: Seq<Seq<char>>) -> Seq<char> {
    spec_row_body(fields) + seq!['\n']
}

/// A CSV text: the concatenation of its records.
pub open spec fn spec_csv(rows: Seq<Seq<Seq<char>>>) -> Seq<char>
    decreases rows.len(),
{
    if rows.len() == 0 {
        Seq::empty()
    } else {
        spec_csv(rows.drop_last()) + spec_csv_row(rows.last())
    }
}

/// The views of a row of owned fields.
pub open spec fn fields_view(row: Seq<String>) -> Seq<Seq<char>> {
    row.map_values(|f: String| f@)
}

/// The views of a list of rows of owned fields.
pub open spec fn rows_fields_view(rows: Seq<Vec<String>>) -> Seq<Seq<Seq<char>>> {
    rows.map_values(|r: Vec<String>| fields_view(r@))
}

/// Writes rows of fields as CSV text, one record per row, fields joined by
/// commas, records closed by a line feed.
pub fn serialize(rows: &Vec<Vec<String>>) -> (r: String)
    ensures
        r@ == spec_csv(rows_fields_view(rows@)),
{
    let ghost rv = rows_fields_view(rows@);
    let mut out = String::new();
    let mut i: usize = 0;
    proof {
        assert(rv.take(0) =~= Seq::<Seq<Seq<char>>>::empty());
        assert(out@ =~= spec_csv(rv.take(0)));
    }
    while i < rows.len()
        invariant
            rv == rows_fields_view(rows@),
            i <= rows@.len(),
            rv.len() == rows@.len(),
            out@ == spec_csv(rv.take(i as int)),
        decreases rows@.len() - i,
    {
        proof {
            assert(rv.take(i as int + 1).drop_last() =~= rv.take(i as int));
            assert(rv.take(i as int + 1).last() == rv[i as int]);
            assert(rv[i as int] == fields_view(rows@[i as int]@));
        }
        let row = &rows[i];
        let ghost fv = fields_view(row@);
        let mut j: usize = 0;
        let ghost out0 = out@;
        while j < row.len()
            invariant
                fv == fields_view(row@),
                j <= row@.len(),
                fv.len() == row@.len(),
                out@ == out0 + spec_row_body(fv.take(j as int)),
            decreases row@.len() - j,
        {
            proof {
                assert(fv.take(j as int + 1).drop_last() =~= fv.take(j as int));
                assert(fv.take(j as int + 1).last() == fv[j as int]);
                assert(fv[j as int] == row@[j as int]@);
            }
            if j > 0 {
                out.append(",");
            }
            out.append(row[j].as_str());
            proof {
                reveal_strlit(",");
                if j == 0 {
                    assert(fv.take(1) =~= seq![fv[0]]);
                    assert(spec_row_body(fv.take(1)) == fv[0]);
                    assert(out@ =~= out0 + spec_row_body(fv.take(1)));
                } else {
                    assert(out@ =~= out0 + spec_row_body(fv.take(j as int + 1)));
                }
            }
            j = j + 1;
        }
        out.append("\n");
        proof {
            reveal_strlit("\n");
            assert(fv.take(row@.len() as int) =~= fv);
            assert(out@ =~= out0 + spec_csv_row(fv));
            assert(out@ =~= spec_csv(rv.take(i as int + 1)));
        }
        i = i + 1;
    }
    proof {
        assert(rv.take(rows@.len() as int) =~= rv);
    }
    out
}

/// The fields of one unquoted record body: the text split at the commas.
pub open spec fn spec_split_commas(s: Seq<char>) -> Seq<Seq<char>>
    decreases s.len(),
{
    let k = crate::text::spec_find(s, ',');
    if 0 <= k < s.len() {
        seq![s.take(k)] + spec_split_commas(s.skip(k + 1))
    } else {
        seq![s]
    }
}

/// Splits one record body into its fields at the commas.
pub fn split_line(s: &str) -> (r: Vec<String>)
    ensures
        fields_view(r@) == spec_split_commas(s@),
{
    let n = s.unicode_len();
    let mut r: Vec<String> = Vec::new();
    let mut start: usize = 0;
    let mut finished = false;
    proof {
        assert(s@.skip(0) =~= s@);
        assert(fields_view(r@) + spec_split_commas(s@.skip(0)) =~= spec_split_commas(s@));
    }
    while !finished
        invariant
            n == s@.len(),
            start <= n,
            !finished ==> fields_view(r@) + spec_split_commas(s@.skip(start as int))
                =~= spec_split_commas(s@),
            finished ==> fields_view(r@) == spec_split_commas(s@),
        decreases n - start + (if finished {
            0int
        } else {
            1int
        }),
    {
        let ghost r0 = r@;
        let ghost tail = s@.skip(start as int);
        let e = crate::text::find_char(s, start, ',');
        let field = crate::text::substring(s, start, e);
        r.push(field);
        proof {
            let k = crate::text::spec_find(tail, ',');
            assert(k == e - start);
            assert(fields_view(r@) =~= fields_view(r0).push(s@.subrange(
                start as int,
                e as int,
            )));
            assert(tail.take(k) =~= s@.subrange(start as int, e as int));
        }
        if e < n {
            proof {
                assert(tail.skip(e - start + 1) =~= s@.skip(e as int + 1));
                assert(spec_split_commas(tail) =~= seq![tail.take(e - start)]
                    + spec_split_commas(s@.skip(e as int + 1)));
                assert(fields_view(r@) + spec_split_commas(s@.skip(e as int + 1))
                    =~= spec_split_commas(s@));
            }
            start = e + 1;
        } else {
            proof {
                assert(tail.take(e - start) =~= tail);
                assert(spec_split_commas(tail) =~= seq![tail]);
                assert(fields_view(r@) =~= spec_split_commas(s@));
            }
            finished = true;
        }
    }
    r
}

/// The record body of one field is the field; a longer record opens with
/// its first field and a comma.
proof fn lemma_row_body_head(fields: Seq<Seq<char>>)
    requires
        fields.len() >= 2,
    ensures
        spec_row_body(fields) == fields[0] + seq![','] + spec_row_body(fields.skip(1)),
    decreases fields.len(),
{
    if fields.len() == 2 {
        assert(fields.drop_last() =~= seq![fields[0]]);
        assert(fields.skip(1) =~= seq![fields[1]]);
        assert(spec_row_body(seq![fields[0]]) == fields[0]);
        assert(spec_row_body(seq![fields[1]]) == fields[1]);
    } else {
        lemma_row_body_head(fields.drop_last());
        assert(fields.drop_last()[0] == fields[0]);
        assert(fields.skip(1).drop_last() =~= fields.drop_last().skip(1));
        assert(fields.skip(1).last() == fields.last());
        assert(spec_row_body(fields.skip(1)) == spec_row_body(fields.drop_last().skip(1))
            + seq![','] + fields.last());
        assert(spec_row_body(fields) =~= fields[0] + seq![','] + spec_row_body(
            fields.skip(1),
        ));
    }
}

/// In a text without commas, the first comma is found at the end.
proof fn lemma_find_absent(s: Seq<char>)
    requires
        forall|i: int| 0 <= i < s.len() ==> s[i] != ',',
    ensures
        crate::text::spec_find(s, ',') == s.len(),
{
    crate::text::lemma_spec_find(s, ',');
    if crate::text::spec_find(s, ',') < s.len() {
        assert(s[crate::text::spec_find(s, ',')] == ',');
    }
}

/// Splitting the record body of plain fields yields the fields back: on
/// unquoted records the serializer and the splitter are inverse.
pub proof fn lemma_split_row_round_trip(fields: Seq<Seq<char>>)
    requires
        fields.len() > 0,
        forall|i: int| 0 <= i < fields.len() ==> spec_plain_field(#[trigger] fields[i]),
    ensures
        spec_split_commas(spec_row_body(fields)) == fields,
    decreases fields.len(),
{
    let body = spec_row_body(fields);
    if fields.len() == 1 {
        assert(body == fields[0]);
        lemma_find_absent(body);
        assert(spec_split_commas(body) =~= seq![body]);
        assert(seq![body] =~= fields);
    } else {
        lemma_row_body_head(fields);
        let rest = seq![','] + spec_row_body(fields.skip(1));
        assert(body == fields[0] + rest);
        assert(rest[0] == ',');
        assert(crate::text::spec_find(rest, ',') == 0);
        crate::text::lemma_spec_find_concat(fields[0], rest, ',');
        let k = crate::text::spec_find(body, ',');
        assert(k == fields[0].len());
        assert(body.take(k) =~= fields[0]);
        assert(body.skip(k + 1) =~= spec_row_body(fields.skip(1)));
        assert(fields.skip(1).len() > 0);
        assert forall|i: int|
            0 <= i < fields.skip(1).len() implies spec_plain_field(
            #[trigger] fields.skip(1)[i],
        ) by {
            assert(fields.skip(1)[i] == fields[i + 1]);
        }
        lemma_split_row_round_trip(fields.skip(1));
        assert(spec_split_commas(body) =~= seq![fields[0]] + spec_split_commas(
            spec_row_body(fields.skip(1)),
        ));
        assert(seq![fields[0]] + fields.skip(1) =~= fields);
    }
}

/// A CSV text of several lists of rows laid end to end is the CSV text of
/// the concatenated rows: records stand alone, so concatenating blobs
/// concatenates their records.
pub proof fn lemma_csv_concat(a: Seq<Seq<Seq<char>>>, b: Seq<Seq<Seq<char>>>)
    ensures
        spec_csv(a + b) == spec_csv(a) + spec_csv(b),
    decreases b.len(),
{
    if b.len() == 0 {
        assert(a + b =~= a);
        assert(spec_csv(a) + spec_csv(b) =~= spec_csv(a));
    } else {
        lemma_csv_concat(a, b.drop_last());
        assert((a + b).drop_last() =~= a + b.drop_last());
        assert((a + b).last() == b.last());
        assert(spec_csv(a) + spec_csv(b) =~= spec_csv(a) + spec_csv(b.drop_last()) + spec_csv_row(
            b.last(),
        ));
    }
}

} // verus!
