//! Output-file policy and record rendering.
//!
//! The manager maps a predicate name deterministically to a file path inside
//! a target directory, enforces the overwrite policy, and says whether the
//! stream must be wrapped with a compressing encoder.  Rendering a record row
//! produces the exact byte sequence that the row format prescribes; the
//! caller performs the actual file I/O.

use vstd::prelude::*;

use crate::table::TrieSerializer;
use crate::EngineError;

verus! {

/// A byte that may stand in a file name unchanged: an ASCII letter, a digit
/// or `-`.  Every other byte — the escape lead `_` included — is escaped.
pub open spec fn safe_byte(b: u8) -> bool {
    (97 <= b && b <= 122) || (65 <= b && b <= 90) || (48 <= b && b <= 57) || b == 45
}

/// The ASCII digit of one hexadecimal nibble.
pub open spec fn hex_digit(x: u8) -> u8 {
    if x < 10 {
        (48 + x) as u8
    } else {
        (87 + x) as u8
    }
}

/// The escape of one byte: the byte itself when safe, else `_` followed by
/// its two hexadecimal digits.  Safe bytes never start with `_`, so the
/// escaping is injective: distinct names yield distinct sanitized forms.
pub open spec fn escape_byte(b: u8) -> Seq<u8> {
    if safe_byte(b) {
        seq![b]
    } else {
        seq![95u8, hex_digit(b / 16), hex_digit(b % 16)]
    }
}

/// The sanitized form of a predicate name: each byte escaped in turn.
pub open spec fn sanitize_spec(name: Seq<u8>) -> Seq<u8>
    decreases name.len(),
{
    if name.len() == 0 {
        Seq::<u8>::empty()
    } else {
        sanitize_spec(name.drop_last()) + escape_byte(name.last())
    }
}

/// A sanitized name is nonempty and never ends in the escape lead `_`.
proof fn lemma_escape_last(s: Seq<u8>)
    requires
        s.len() > 0,
    ensures
        sanitize_spec(s).len() > 0,
        sanitize_spec(s).last() != 95,
    decreases s.len(),
{
    let e = escape_byte(s.last());
    assert(sanitize_spec(s).last() == e.last());
}

/// The escape lead never stands second-to-last in a sanitized name.
proof fn lemma_escape_second_last(s: Seq<u8>)
    requires
        s.len() > 0,
        sanitize_spec(s).len() >= 2,
    ensures
        sanitize_spec(s)[sanitize_spec(s).len() - 2] != 95,
{
    let out = sanitize_spec(s);
    let prior = sanitize_spec(s.drop_last());
    let e = escape_byte(s.last());
    if safe_byte(s.last()) {
        assert(prior.len() >= 1);
        if s.drop_last().len() == 0 {
            assert(prior =~= Seq::<u8>::empty());
            assert(false);
        }
        lemma_escape_last(s.drop_last());
        assert(out[out.len() - 2] == prior.last());
    } else {
        assert(out[out.len() - 2] == hex_digit((s.last() / 16) as u8));
    }
}

/// Sanitization is injective: distinct predicate names keep distinct
/// sanitized forms, so distinct predicates are written to distinct files.
pub proof fn lemma_sanitize_injective(n1: Seq<u8>, n2: Seq<u8>)
    requires
        sanitize_spec(n1) == sanitize_spec(n2),
    ensures
        n1 == n2,
    decreases n1.len(),
{
    if n1.len() == 0 && n2.len() == 0 {
        assert(n1 =~= n2);
    } else if n1.len() == 0 {
        lemma_escape_last(n2);
        assert(sanitize_spec(n1).len() == 0);
    } else if n2.len() == 0 {
        lemma_escape_last(n1);
        assert(sanitize_spec(n2).len() == 0);
    } else {
        let out = sanitize_spec(n1);
        let x1 = n1.last();
        let x2 = n2.last();
        let a1 = sanitize_spec(n1.drop_last());
        let a2 = sanitize_spec(n2.drop_last());
        let e1 = escape_byte(x1);
        let e2 = escape_byte(x2);
        if safe_byte(x1) && safe_byte(x2) {
            assert(out.last() == x1);
            assert(sanitize_spec(n2).last() == x2);
            assert(a1 =~= out.take(out.len() - 1));
            assert(a2 =~= out.take(out.len() - 1));
            lemma_sanitize_injective(n1.drop_last(), n2.drop_last());
            assert forall|k: int| 0 <= k < n1.len() implies n1[k] == n2[k] by {
                if k < n1.len() - 1 {
                    assert(n1.drop_last()[k] == n2.drop_last()[k]);
                }
            }
            assert(n1 =~= n2);
        } else if !safe_byte(x1) && !safe_byte(x2) {
            assert(out[out.len() - 1] == hex_digit((x1 % 16) as u8));
            assert(out[out.len() - 1] == hex_digit((x2 % 16) as u8));
            assert(out[out.len() - 2] == hex_digit((x1 / 16) as u8));
            assert(out[out.len() - 2] == hex_digit((x2 / 16) as u8));
            assert(x1 % 16 == x2 % 16 && x1 / 16 == x2 / 16);
            assert(x1 == x2) by (bit_vector)
                requires
                    x1 % 16 == x2 % 16 && x1 / 16 == x2 / 16,
            ;
            assert(a1 =~= out.take(out.len() - 3));
            assert(a2 =~= out.take(out.len() - 3));
            lemma_sanitize_injective(n1.drop_last(), n2.drop_last());
            assert forall|k: int| 0 <= k < n1.len() implies n1[k] == n2[k] by {
                if k < n1.len() - 1 {
                    assert(n1.drop_last()[k] == n2.drop_last()[k]);
                }
            }
            assert(n1 =~= n2);
        } else if safe_byte(x1) {
            assert(out.len() == a1.len() + 1 && out.len() == a2.len() + 3);
            assert(out[out.len() - 3] == e2[0]);
            assert(out[out.len() - 3] == a1[a1.len() - 2]);
            if n1.drop_last().len() == 0 {
                assert(a1 =~= Seq::<u8>::empty());
                assert(false);
            }
            lemma_escape_second_last(n1.drop_last());
            assert(false);
        } else {
            assert(out.len() == a2.len() + 1 && out.len() == a1.len() + 3);
            assert(out[out.len() - 3] == e1[0]);
            assert(out[out.len() - 3] == a2[a2.len() - 2]);
            if n2.drop_last().len() == 0 {
                assert(a2 =~= Seq::<u8>::empty());
                assert(false);
            }
            lemma_escape_second_last(n2.drop_last());
            assert(false);
        }
    }
}

/// The file path a manager assigns to a predicate name:
/// `<dir>/<sanitized name>.csv`, with `.gz` appended when compression is on.
pub open spec fn file_path_spec(dir: Seq<u8>, gzip: bool, name: Seq<u8>) -> Seq<u8> {
    dir + seq![47u8] + sanitize_spec(name) + seq![46u8, 99u8, 115u8, 118u8] + (if gzip {
        seq![46u8, 103u8, 122u8]
    } else {
        Seq::<u8>::empty()
    })
}

/// Resolves predicate names to file paths in one target directory and
/// enforces the overwrite and compression policy for every file it names.
pub struct OutputFileManager {
    /// Path of the target directory, as raw bytes.
    pub dir: Vec<u8>,
    /// Whether an existing file may be replaced.
    pub overwrite: bool,
    /// Whether output streams are gzip-compressed.
    pub gzip: bool,
}

impl OutputFileManager {
    /// A manager for `dir` with the given overwrite and compression policy.
    pub fn new(dir: Vec<u8>, overwrite: bool, gzip: bool) -> (r: OutputFileManager)
        ensures
            r.dir@ == dir@,
            r.overwrite == overwrite,
            r.gzip == gzip,
    {
        OutputFileManager { dir, overwrite, gzip }
    }

    /// The file path assigned to a predicate name: deterministic, inside the
    /// target directory, with unsafe bytes of the name escaped injectively,
    /// so distinct predicates never share a file.
    pub fn file_path(&self, name: &Vec<u8>) -> (r: Vec<u8>)
        ensures
            r@ == file_path_spec(self.dir@, self.gzip, name@),
    {
        let mut r: Vec<u8> = Vec::new();
        let mut i: usize = 0;
        while i < self.dir.len()
            invariant
                i <= self.dir.len(),
                r@ == self.dir@.take(i as int),
            decreases self.dir.len() - i,
        {
            r.push(self.dir[i]);
            i += 1;
        }
        assert(r@ == self.dir@);
        r.push(47);
        let mut j: usize = 0;
        while j < name.len()
            invariant
                j <= name.len(),
                r@ == self.dir@ + seq![47u8] + sanitize_spec(name@.take(j as int)),
            decreases name.len() - j,
        {
            let b = name[j];
            if (97 <= b && b <= 122) || (65 <= b && b <= 90) || (48 <= b && b <= 57) || b == 45 {
                r.push(b);
                proof {
                    assert(escape_byte(name@[j as int]) =~= seq![name@[j as int]]);
                }
            } else {
                r.push(95);
                let hi = b / 16;
                let lo = b % 16;
                let hc: u8 = if hi < 10 {
                    48 + hi
                } else {
                    87 + hi
                };
                let lc: u8 = if lo < 10 {
                    48 + lo
                } else {
                    87 + lo
                };
                r.push(hc);
                r.push(lc);
                proof {
                    assert(escape_byte(name@[j as int]) =~= seq![95u8, hc, lc]);
                }
            }
            j += 1;
            proof {
                assert(name@.take(j as int).drop_last() =~= name@.take(j - 1));
                assert(r@ =~= self.dir@ + seq![47u8] + sanitize_spec(name@.take(j as int)));
            }
        }
        assert(name@.take(name@.len() as int) =~= name@);
        r.push(46);
        r.push(99);
        r.push(115);
        r.push(118);
        if self.gzip {
            r.push(46);
            r.push(103);
            r.push(122);
        }
        assert(r@ =~= file_path_spec(self.dir@, self.gzip, name@));
        r
    }

    /// The overwrite guard: creating a writer for a path that already exists
    /// fails with `FileExistsError` exactly when overwriting is disabled.
    /// The caller reports whether the target file exists.
    pub fn check_create(&self, exists: bool) -> (r: Result<(), EngineError>)
        ensures
            r is Err <==> (exists && !self.overwrite),
            r is Err ==> r == Result::<(), EngineError>::Err(EngineError::FileExistsError),
    {
        if exists && !self.overwrite {
            Err(EngineError::FileExistsError)
        } else {
            Ok(())
        }
    }
}

/// The byte encoding of one record row: column values separated by a tab,
/// the row ended by a newline.
pub open spec fn row_bytes(row: Seq<Seq<u8>>) -> Seq<u8>
    decreases row.len(),
{
    if row.len() == 0 {
        seq![10u8]
    } else if row.len() == 1 {
        row[0] + seq![10u8]
    } else {
        row[0] + seq![9u8] + row_bytes(row.drop_first())
    }
}

/// The byte encoding of a whole table: its rows' encodings, in order.
pub open spec fn rows_bytes(rows: Seq<Seq<Seq<u8>>>) -> Seq<u8>
    decreases rows.len(),
{
    if rows.len() == 0 {
        Seq::<u8>::empty()
    } else {
        row_bytes(rows[0]) + rows_bytes(rows.drop_first())
    }
}

/// Renders the row's columns from position `from` on, in the row format.
fn serialize_row_from(row: &Vec<Vec<u8>>, from: usize) -> (r: Vec<u8>)
    requires
        from <= row@.len(),
    ensures
        r@ == row_bytes(row.deep_view().skip(from as int)),
    decreases row@.len() - from,
{
    let ghost tail = row.deep_view().skip(from as int);
    if from == row.len() {
        let mut r: Vec<u8> = Vec::new();
        r.push(10);
        assert(r@ =~= row_bytes(tail));
        r
    } else {
        let mut r: Vec<u8> = Vec::new();
        let v = &row[from];
        let mut i: usize = 0;
        while i < v.len()
            invariant
                i <= v.len(),
                r@ == v@.take(i as int),
            decreases v.len() - i,
        {
            r.push(v[i]);
            i += 1;
        }
        assert(r@ =~= row.deep_view()[from as int]);
        if from + 1 == row.len() {
            r.push(10);
            assert(tail.len() == 1);
            assert(r@ =~= row_bytes(tail));
        } else {
            r.push(9);
            let mut rest = serialize_row_from(row, from + 1);
            r.append(&mut rest);
            assert(tail.drop_first() =~= row.deep_view().skip(from + 1));
            assert(tail.len() >= 2);
            assert(r@ =~= row_bytes(tail));
        }
        r
    }
}

/// Renders one record row: column values separated by a tab, ended by a
/// newline.
pub fn serialize_row(row: &Vec<Vec<u8>>) -> (r: Vec<u8>)
    ensures
        r@ == row_bytes(row.deep_view()),
{
    let r = serialize_row_from(row, 0);
    assert(row.deep_view().skip(0) =~= row.deep_view());
    r
}

/// Extending the rendered prefix by one row appends that row's encoding.
proof fn lemma_rows_bytes_take(s: Seq<Seq<Seq<u8>>>, i: int)
    requires
        0 <= i < s.len(),
    ensures
        rows_bytes(s.take(i + 1)) == rows_bytes(s.take(i)) + row_bytes(s[i]),
    decreases i,
{
    if i == 0 {
        assert(s.take(1).drop_first() =~= Seq::<Seq<Seq<u8>>>::empty());
        assert(s.take(0) =~= Seq::<Seq<Seq<u8>>>::empty());
        assert(s.take(1)[0] == s[0]);
        assert(rows_bytes(s.take(1)) =~= rows_bytes(s.take(0)) + row_bytes(s[0]));
    } else {
        lemma_rows_bytes_take(s.drop_first(), i - 1);
        assert(s.take(i + 1).drop_first() =~= s.drop_first().take(i));
        assert(s.take(i).drop_first() =~= s.drop_first().take(i - 1));
        assert(s.take(i + 1)[0] == s[0]);
        assert(s.take(i)[0] == s[0]);
        assert(s.drop_first()[i - 1] == s[i]);
        assert(row_bytes(s[0]) + (rows_bytes(s.drop_first().take(i - 1)) + row_bytes(s[i])) =~= (
        row_bytes(s[0]) + rows_bytes(s.drop_first().take(i - 1))) + row_bytes(s[i]));
    }
}

/// Renders every record of a fresh stream, in iteration order, in the row
/// format.
#[verifier::loop_isolation(false)]
pub fn render_table(ser: &mut TrieSerializer) -> (r: Vec<u8>)
    requires
        old(ser).wf(),
        old(ser).pos == 0,
    ensures
        r@ == rows_bytes(old(ser).rows()),
{
    let ghost rows = ser.rows();
    let mut out: Vec<u8> = Vec::new();
    proof {
        assert(rows.take(0) =~= Seq::<Seq<Seq<u8>>>::empty());
    }
    loop
        invariant
            ser.wf(),
            ser.rows() == rows,
            ser.recs@.len() >= ser.pos,
            ser.pos <= rows.len(),
            out@ == rows_bytes(rows.take(ser.pos as int)),
        decreases ser.recs@.len() - ser.pos,
    {
        let ghost pos0 = ser.pos;
        proof {
            crate::table::lemma_decode_len(ser.recs@);
        }
        match ser.next_record() {
            None => {
                break ;
            },
            Some(row) => {
                let mut bytes = serialize_row(&row);
                proof {
                    lemma_rows_bytes_take(rows, pos0 as int);
                }
                out.append(&mut bytes);
            },
        }
    }
    proof {
        crate::table::lemma_decode_len(ser.recs@);
        assert(rows.take(rows.len() as int) =~= rows);
    }
    out
}

/// The gzip encoding, at the fixed default compression level, of a byte
/// sequence.
pub uninterp spec fn gzip_of(data: Seq<u8>) -> Seq<u8>;

/// Relies on flate2's `GzEncoder` over an in-memory buffer: with a fixed
/// compression level and flate2's reproducible header (zero modification
/// time, fixed operating-system byte), the output is a function of the input
/// bytes alone, and writing to a `Vec` sink cannot fail.
#[verifier::external_body]
fn gzip_compress(data: &Vec<u8>) -> (r: Vec<u8>)
    ensures
        r@ == gzip_of(data@),
{
    let mut enc = flate2::write::GzEncoder::new(Vec::new(), flate2::Compression::new(6));
    std::io::Write::write_all(&mut enc, data.as_slice()).expect("a Vec sink cannot fail");
    enc.finish().expect("a Vec sink cannot fail")
}

/// Renders a fresh record stream and compresses the bytes when asked to:
/// what the record writer hands to the output file.
pub fn render_output(ser: &mut TrieSerializer, gzip: bool) -> (r: Vec<u8>)
    requires
        old(ser).wf(),
        old(ser).pos == 0,
    ensures
        gzip ==> r@ == gzip_of(rows_bytes(old(ser).rows())),
        !gzip ==> r@ == rows_bytes(old(ser).rows()),
{
    let plain = render_table(ser);
    if gzip {
        gzip_compress(&plain)
    } else {
        plain
    }
}

} // verus!
