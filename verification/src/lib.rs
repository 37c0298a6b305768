//! A compact, self-describing binary format for tabular data: a header
//! holding an ordered list of named, typed columns, followed by a stream of
//! rows encoded one cell at a time against that schema.
//!
//! The writer and the reader agree byte for byte on the layout:
//!
//! ```text
//! FILE         := VARINT(column_count) COLUMN* ROW*
//! COLUMN       := TYPE_TAG(1 byte) VARINT(name_len) UTF8_BYTES(name_len)
//! ROW          := CELL*            -- one CELL per COLUMN, in COLUMN order
//! CELL(Text)   := VARINT(byte_len) UTF8_BYTES(byte_len)
//! CELL(Number) := 8 raw bytes, IEEE-754 double, little-endian
//! ```

use vstd::prelude::*;

pub mod encode;

verus! {

/// Everything that can go wrong while encoding or decoding.
#[derive(Debug, PartialEq, Eq, Structural)]
pub enum Error {
    /// The source is exhausted exactly at a row boundary: no more rows.
    EOF,
    /// A row's cell count differs from the schema's column count.
    InvalidRecordLength,
    /// The sink cannot take the encoded bytes.
    WriteFailed,
    /// A cell's variant does not match its column's declared type.
    InvalidCellType,
    /// An unrecognized column type tag in a header.
    InvalidColumnType,
    /// A decode ran out of bytes mid-structure, a varint overflowed the
    /// target width, or a name or text cell was not valid UTF-8.
    MalformedStream,
}

/// One row's value for one column, tagged by its kind.
#[derive(Debug)]
pub enum Cell {
    /// A text value.
    String(String),
    /// A 64-bit IEEE-754 value, held as its bit pattern, so that the
    /// codec's byte-exact behaviour can be stated and proved over plain
    /// integers.
    Number(u64),
}

/// The mathematical value of a [`Cell`].
pub enum CellV {
    String(Seq<char>),
    Number(u64),
}

impl View for Cell {
    type V = CellV;

    open spec fn view(&self) -> CellV {
        match self {
            Cell::String(s) => CellV::String(s@),
            Cell::Number(bits) => CellV::Number(*bits),
        }
    }
}

impl DeepView for Cell {
    type V = CellV;

    open spec fn deep_view(&self) -> CellV {
        self.view()
    }
}

impl PartialEq for Cell {
    fn eq(&self, other: &Cell) -> (r: bool) {
        match (self, other) {
            (Cell::String(a), Cell::String(b)) => a.eq(b),
            (Cell::Number(a), Cell::Number(b)) => *a == *b,
            (Cell::String(_), Cell::Number(_)) => false,
            (Cell::Number(_), Cell::String(_)) => false,
        }
    }
}

impl vstd::std_specs::cmp::PartialEqSpecImpl for Cell {
    open spec fn obeys_eq_spec() -> bool {
        true
    }

    open spec fn eq_spec(&self, other: &Cell) -> bool {
        self@ == other@
    }
}

/// The closed set of column types, each with a stable one-byte wire tag.
#[derive(Clone, Copy, Debug, PartialEq, Eq, Structural)]
pub enum ColumnDataType {
    String,
    Number,
}

/// The one-byte wire tag of a column type: `0x01` for text, `0x02` for
/// numbers; `0x00` and anything at `0x03` or above is invalid.
pub open spec fn tag_of(t: ColumnDataType) -> u8 {
    match t {
        ColumnDataType::String => 1,
        ColumnDataType::Number => 2,
    }
}

/// The column type whose tag starts at `pos`, and the position just past
/// it: `EOF` when the bytes are exhausted, `InvalidColumnType` for an
/// unknown tag.
pub open spec fn coltype_dec(b: Seq<u8>, pos: int) -> Result<(ColumnDataType, int), Error> {
    if pos < 0 || pos >= b.len() {
        Err(Error::EOF)
    } else if b[pos] == 1 {
        Ok((ColumnDataType::String, pos + 1))
    } else if b[pos] == 2 {
        Ok((ColumnDataType::Number, pos + 1))
    } else {
        Err(Error::InvalidColumnType)
    }
}

impl ColumnDataType {
    /// Encodes the type as its one-byte wire tag.
    pub fn to_vec(&self) -> (r: Vec<u8>)
        ensures
            r@ == seq![tag_of(*self)],
    {
        let mut res: Vec<u8> = Vec::new();
        match self {
            ColumnDataType::String => res.push(1u8),
            ColumnDataType::Number => res.push(2u8),
        }
        proof {
            assert(res@ =~= seq![tag_of(*self)]);
        }
        res
    }

    /// Decodes the one-byte type tag at `start`.
    pub fn read_from(data: &Vec<u8>, start: usize) -> (r: Result<(ColumnDataType, usize), Error>)
        ensures
            match coltype_dec(data@, start as int) {
                Ok((t, p)) => r is Ok && r.unwrap().0 == t && r.unwrap().1 == p as usize,
                Err(e) => r is Err && r.unwrap_err() == e,
            },
    {
        if start >= data.len() {
            return Err(Error::EOF);
        }
        let b = data[start];
        if b == 1 {
            Ok((ColumnDataType::String, start + 1))
        } else if b == 2 {
            Ok((ColumnDataType::Number, start + 1))
        } else {
            Err(Error::InvalidColumnType)
        }
    }
}

/// A named, typed column. A schema is an ordered sequence of these; the
/// order defines the positional layout of every row.
#[derive(Clone, Debug)]
pub struct Column {
    pub name: String,
    pub data_type: ColumnDataType,
}

/// The mathematical value of a [`Column`].
pub struct ColumnV {
    pub name: Seq<char>,
    pub data_type: ColumnDataType,
}

impl View for Column {
    type V = ColumnV;

    open spec fn view(&self) -> ColumnV {
        ColumnV { name: self.name@, data_type: self.data_type }
    }
}

impl DeepView for Column {
    type V = ColumnV;

    open spec fn deep_view(&self) -> ColumnV {
        self.view()
    }
}

/// The wire form of one column: its type tag, then its length-prefixed
/// name.
pub open spec fn col_enc(c: ColumnV) -> Seq<u8> {
    seq![tag_of(c.data_type)] + encode::str_enc(c.name)
}

/// The column starting at `pos` and the position just past it.
pub open spec fn col_dec(b: Seq<u8>, pos: int) -> Result<(ColumnV, int), Error> {
    match coltype_dec(b, pos) {
        Err(e) => Err(e),
        Ok((t, p)) => match encode::str_dec(b, p) {
            Err(e) => Err(e),
            Ok((nm, p2)) => Ok((ColumnV { name: nm, data_type: t }, p2)),
        },
    }
}

impl Column {
    /// Decodes one column descriptor starting at `start`.
    pub fn read_from(data: &Vec<u8>, start: usize) -> (r: Result<(Column, usize), Error>)
        ensures
            match col_dec(data@, start as int) {
                Ok((c, p)) => r is Ok && r.unwrap().0@ == c && r.unwrap().1 == p as usize,
                Err(e) => r is Err && r.unwrap_err() == e,
            },
    {
        proof {
            assert(data.len() == data@.len());
        }
        let (t, p) = match ColumnDataType::read_from(data, start) {
            Ok(v) => v,
            Err(e) => {
                return Err(e);
            },
        };
        let (nm, p2) = match encode::decode_string(data, p) {
            Ok(v) => v,
            Err(e) => {
                return Err(e);
            },
        };
        Ok((Column { name: nm, data_type: t }, p2))
    }

    /// Encodes this column as its type tag followed by its name.
    pub fn to_vec(&self) -> (r: Vec<u8>)
        ensures
            r@ == col_enc(self@),
    {
        let mut res = self.data_type.to_vec();
        let mut nm = encode::string(self.name.as_str());
        res.append(&mut nm);
        res
    }
}

/// The concatenated wire forms of the columns, in order.
pub open spec fn cols_enc(cols: Seq<ColumnV>) -> Seq<u8>
    decreases cols.len(),
{
    if cols.len() == 0 {
        seq![]
    } else {
        col_enc(cols[0]) + cols_enc(cols.drop_first())
    }
}

/// The wire form of a whole schema: a varint column count, then each
/// column in order.
pub open spec fn schema_enc(cols: Seq<ColumnV>) -> Seq<u8> {
    encode::varint_enc(cols.len()) + cols_enc(cols)
}

/// Exactly `n` column descriptors starting at `pos`, and the position just
/// past them.
pub open spec fn cols_dec_n(b: Seq<u8>, pos: int, n: nat) -> Result<(Seq<ColumnV>, int), Error>
    decreases n,
{
    if n == 0 {
        Ok((seq![], pos))
    } else {
        match col_dec(b, pos) {
            Err(e) => Err(e),
            Ok((c, p)) => match cols_dec_n(b, p, (n - 1) as nat) {
                Err(e) => Err(e),
                Ok((cs, p2)) => Ok((seq![c] + cs, p2)),
            },
        }
    }
}

/// The schema at `pos`: a varint count, then that many columns.
pub open spec fn schema_dec(b: Seq<u8>, pos: int) -> Result<(Seq<ColumnV>, int), Error> {
    match encode::varint_dec(b, pos) {
        Err(e) => Err(e),
        Ok((n, p)) => cols_dec_n(b, p, n as nat),
    }
}

/// Whether a cell's variant agrees with a column's declared type.
pub open spec fn cell_matches(c: CellV, t: ColumnDataType) -> bool {
    match c {
        CellV::String(_) => t == ColumnDataType::String,
        CellV::Number(_) => t == ColumnDataType::Number,
    }
}

/// Whether a row has one cell per column, each of the column's type.
pub open spec fn row_matches(cells: Seq<CellV>, cols: Seq<ColumnV>) -> bool {
    &&& cells.len() == cols.len()
    &&& forall|i: int| 0 <= i < cells.len() ==> cell_matches(cells[i], cols[i].data_type)
}

/// The wire form of one cell: length-prefixed UTF-8 for text, eight
/// little-endian bytes for a number.
pub open spec fn cell_enc(c: CellV) -> Seq<u8> {
    match c {
        CellV::String(s) => encode::str_enc(s),
        CellV::Number(bits) => encode::le_enc(bits as nat, 8),
    }
}

/// The concatenated wire forms of a row's cells, in order.
pub open spec fn cells_enc(cells: Seq<CellV>) -> Seq<u8>
    decreases cells.len(),
{
    if cells.len() == 0 {
        seq![]
    } else {
        cell_enc(cells[0]) + cells_enc(cells.drop_first())
    }
}

/// The concatenated wire forms of the rows, in order.
pub open spec fn rows_enc(rows: Seq<Seq<CellV>>) -> Seq<u8>
    decreases rows.len(),
{
    if rows.len() == 0 {
        seq![]
    } else {
        cells_enc(rows[0]) + rows_enc(rows.drop_first())
    }
}

/// The cell of type `t` at `pos`, and the position just past it.
pub open spec fn cell_dec(b: Seq<u8>, pos: int, t: ColumnDataType) -> Result<(CellV, int), Error> {
    match t {
        ColumnDataType::String => match encode::str_dec(b, pos) {
            Err(e) => Err(e),
            Ok((s, p)) => Ok((CellV::String(s), p)),
        },
        ColumnDataType::Number => match encode::num_dec(b, pos) {
            Err(e) => Err(e),
            Ok((v, p)) => Ok((CellV::Number(v), p)),
        },
    }
}

/// One cell per column starting at `pos`. Running out of bytes here is
/// mid-row truncation, a corrupt file, so `EOF` from a cell decode is
/// reported as `MalformedStream`.
pub open spec fn cells_dec(b: Seq<u8>, pos: int, cols: Seq<ColumnV>) -> Result<(Seq<CellV>, int), Error>
    decreases cols.len(),
{
    if cols.len() == 0 {
        Ok((seq![], pos))
    } else {
        match cell_dec(b, pos, cols[0].data_type) {
            Err(e) => Err(if e == Error::EOF {
                Error::MalformedStream
            } else {
                e
            }),
            Ok((c, p)) => match cells_dec(b, p, cols.drop_first()) {
                Err(e) => Err(e),
                Ok((cs, p2)) => Ok((seq![c] + cs, p2)),
            },
        }
    }
}

/// One whole row at `pos`: `EOF` exactly when the bytes end at the row
/// boundary (no more rows), else the row's cells in schema order.
pub open spec fn record_dec(b: Seq<u8>, pos: int, cols: Seq<ColumnV>) -> Result<(Seq<CellV>, int), Error> {
    if pos >= b.len() {
        Err(Error::EOF)
    } else {
        cells_dec(b, pos, cols)
    }
}

/// Exactly `n` rows starting at `pos`, and the position just past them.
pub open spec fn rows_dec_n(b: Seq<u8>, pos: int, cols: Seq<ColumnV>, n: nat) -> Result<
    (Seq<Seq<CellV>>, int),
    Error,
>
    decreases n,
{
    if n == 0 {
        Ok((seq![], pos))
    } else {
        match record_dec(b, pos, cols) {
            Err(e) => Err(e),
            Ok((row, p)) => match rows_dec_n(b, p, cols, (n - 1) as nat) {
                Err(e) => Err(e),
                Ok((rows, p2)) => Ok((seq![row] + rows, p2)),
            },
        }
    }
}

/// A successful string decode ends past its start and within the bytes.
pub proof fn lemma_str_dec_range(b: Seq<u8>, pos: int)
    ensures
        encode::str_dec(b, pos) matches Ok((s, p)) ==> pos < p <= b.len(),
{
    encode::lemma_varint_dec_range(b, pos, 0, 1);
}

/// A successful column decode ends past its start and within the bytes.
pub proof fn lemma_col_dec_range(b: Seq<u8>, pos: int)
    ensures
        col_dec(b, pos) matches Ok((c, p)) ==> pos < p <= b.len(),
{
    if coltype_dec(b, pos) is Ok {
        lemma_str_dec_range(b, pos + 1);
    }
}

/// A successful schema-column decode ends within the bytes.
pub proof fn lemma_cols_dec_n_range(b: Seq<u8>, pos: int, n: nat)
    requires
        0 <= pos <= b.len(),
    ensures
        cols_dec_n(b, pos, n) matches Ok((cs, p)) ==> pos <= p <= b.len(),
    decreases n,
{
    if n > 0 {
        lemma_col_dec_range(b, pos);
        if col_dec(b, pos) is Ok {
            let (c, p) = col_dec(b, pos)->Ok_0;
            lemma_cols_dec_n_range(b, p, (n - 1) as nat);
        }
    }
}

/// A successful header decode ends within the bytes.
pub proof fn lemma_schema_dec_range(b: Seq<u8>, pos: int)
    ensures
        schema_dec(b, pos) matches Ok((cs, p)) ==> p <= b.len(),
{
    encode::lemma_varint_dec_range(b, pos, 0, 1);
    if encode::varint_dec(b, pos) is Ok {
        let (n, p) = encode::varint_dec(b, pos)->Ok_0;
        lemma_cols_dec_n_range(b, p, n as nat);
    }
}

/// A successful row decode ends within the bytes.
pub proof fn lemma_cells_dec_range(b: Seq<u8>, pos: int, cols: Seq<ColumnV>)
    requires
        0 <= pos <= b.len(),
    ensures
        cells_dec(b, pos, cols) matches Ok((cs, p)) ==> pos <= p <= b.len(),
    decreases cols.len(),
{
    if cols.len() > 0 {
        lemma_str_dec_range(b, pos);
        if cell_dec(b, pos, cols[0].data_type) is Ok {
            let (c, p) = cell_dec(b, pos, cols[0].data_type)->Ok_0;
            lemma_cells_dec_range(b, p, cols.drop_first());
        }
    }
}

/// Clones a column list, name by name.
fn clone_columns(v: &Vec<Column>) -> (r: Vec<Column>)
    ensures
        r.deep_view() == v.deep_view(),
{
    let mut r: Vec<Column> = Vec::new();
    let mut i: usize = 0;
    while i < v.len()
        invariant
            i <= v@.len(),
            r@.len() == i,
            forall|j: int| 0 <= j < i ==> r@[j]@ == v@[j]@,
        decreases v@.len() - i,
    {
        let c = Column { name: v[i].name.clone(), data_type: v[i].data_type };
        r.push(c);
        i = i + 1;
    }
    proof {
        assert(r.deep_view() =~= v.deep_view());
    }
    r
}

/// Appending one more column to a schema appends its wire form.
pub proof fn lemma_cols_enc_push(cols: Seq<ColumnV>, c: ColumnV)
    ensures
        cols_enc(cols.push(c)) == cols_enc(cols) + col_enc(c),
    decreases cols.len(),
{
    if cols.len() == 0 {
        assert(cols.push(c)[0] == c);
        assert(cols.push(c).drop_first() =~= Seq::<ColumnV>::empty());
        assert(cols_enc(Seq::<ColumnV>::empty()) == Seq::<u8>::empty());
        assert(cols_enc(cols.push(c)) == col_enc(c) + Seq::<u8>::empty());
        assert(col_enc(c) + Seq::<u8>::empty() =~= Seq::<u8>::empty() + col_enc(c));
    } else {
        assert(cols.push(c).drop_first() =~= cols.drop_first().push(c));
        lemma_cols_enc_push(cols.drop_first(), c);
        assert(cols.push(c)[0] == cols[0]);
        assert(col_enc(cols[0]) + (cols_enc(cols.drop_first()) + col_enc(c)) =~= (col_enc(cols[0])
            + cols_enc(cols.drop_first())) + col_enc(c));
    }
}

/// What one call of `write_record` does to the sink, cell by cell: each
/// matching cell's wire form is written in place before the next cell is
/// looked at, so a mid-row type mismatch leaves the cells before it
/// written. The result is the sink, the cursor, and the call's outcome.
pub open spec fn write_cells(buf: Seq<u8>, pos: int, cols: Seq<ColumnV>, cells: Seq<CellV>) -> (
    Seq<u8>,
    int,
    Result<(), Error>,
)
    recommends
        cells.len() == cols.len(),
    decreases cols.len(),
{
    if cols.len() == 0 {
        (buf, pos, Ok(()))
    } else if !cell_matches(cells[0], cols[0].data_type) {
        (buf, pos, Err(Error::InvalidCellType))
    } else {
        let bytes = cell_enc(cells[0]);
        if pos + bytes.len() > usize::MAX {
            (buf, pos, Err(Error::WriteFailed))
        } else {
            write_cells(
                encode::splice(buf, pos, bytes),
                pos + bytes.len(),
                cols.drop_first(),
                cells.drop_first(),
            )
        }
    }
}

/// The abstract state of a writer: its schema, the sink's bytes, and the
/// cursor.
pub struct WriterV {
    pub cols: Seq<ColumnV>,
    pub buf: Seq<u8>,
    pub pos: int,
}

/// Serializes rows against a fixed schema into an in-memory sink. The
/// header is written at construction; each call then appends one row at
/// the cursor.
pub struct TabulaWriter {
    cols: Vec<Column>,
    buf: Vec<u8>,
    pos: usize,
}

impl View for TabulaWriter {
    type V = WriterV;

    closed spec fn view(&self) -> WriterV {
        WriterV { cols: self.cols.deep_view(), buf: self.buf@, pos: self.pos as int }
    }
}

impl TabulaWriter {
    /// The writer's cursor never sits past the end of its sink. The
    /// constructor establishes this and every method preserves it.
    pub open spec fn wf(&self) -> bool {
        self@.pos <= self@.buf.len()
    }

    /// Builds a writer over `sink`: resets the cursor to the start of the
    /// sink and writes the schema header there, overwriting whatever the
    /// sink held. Writing into memory cannot fail, so the result is always
    /// the writer.
    pub fn new(columns: &Vec<Column>, sink: Vec<u8>) -> (r: Result<TabulaWriter, Error>)
        ensures
            r is Ok,
            r.unwrap().wf(),
            r.unwrap()@.cols == columns.deep_view(),
            r.unwrap()@.buf == encode::splice(sink@, 0, schema_enc(columns.deep_view())),
            r.unwrap()@.pos == schema_enc(columns.deep_view()).len(),
    {
        let ghost colsv = columns.deep_view();
        let mut header = encode::usize_varint(columns.len());
        proof {
            assert(colsv.len() == columns@.len());
            assert(colsv.take(0) =~= Seq::<ColumnV>::empty());
            assert(header@ + cols_enc(colsv.take(0)) =~= header@);
        }
        let ghost header0 = header@;
        let mut i: usize = 0;
        while i < columns.len()
            invariant
                i <= columns@.len(),
                colsv == columns.deep_view(),
                colsv.len() == columns@.len(),
                header0 == encode::varint_enc(colsv.len()),
                header@ == header0 + cols_enc(colsv.take(i as int)),
            decreases columns@.len() - i,
        {
            let mut cv = columns[i].to_vec();
            let ghost h0 = header@;
            header.append(&mut cv);
            i = i + 1;
            proof {
                assert(colsv.take(i - 1).push(colsv[i - 1]) =~= colsv.take(i as int));
                lemma_cols_enc_push(colsv.take(i - 1), colsv[i - 1]);
                assert(columns@[i - 1]@ == colsv[i - 1]);
                assert(header@ =~= header0 + cols_enc(colsv.take(i as int)));
            }
        }
        proof {
            assert(colsv.take(colsv.len() as int) =~= colsv);
            assert(header@ == schema_enc(colsv));
        }
        proof {
            assert(header.len() == header@.len());
        }
        let mut buf = sink;
        let pos = encode::write_bytes(&mut buf, 0, &header);
        let cols = clone_columns(columns);
        Ok(TabulaWriter { cols, buf, pos })
    }

    /// The schema exactly as this writer was constructed with.
    pub fn columns(&self) -> (r: Vec<Column>)
        ensures
            r.deep_view() == self@.cols,
    {
        clone_columns(&self.cols)
    }

    /// Consumes the writer and hands back the sink with everything written
    /// so far.
    pub fn into_inner(self) -> (r: Vec<u8>)
        ensures
            r@ == self@.buf,
    {
        self.buf
    }

    /// The sink's bytes as written so far.
    pub fn data(&self) -> (r: &Vec<u8>)
        ensures
            r@ == self@.buf,
    {
        &self.buf
    }

    /// Writes one row at the cursor: one cell per column, in schema order.
    /// A row of the wrong length fails with `InvalidRecordLength` before
    /// anything is written; a cell of the wrong type fails with
    /// `InvalidCellType` after the cells before it are already written, as
    /// [`write_cells`] states, and the stream is then at an indeterminate
    /// row boundary.
    pub fn write_record(&mut self, cells: &Vec<Cell>) -> (r: Result<(), Error>)
        requires
            old(self).wf(),
        ensures
            final(self).wf(),
            final(self)@.cols == old(self)@.cols,
            cells@.len() != old(self)@.cols.len() ==> r == Err::<(), Error>(
                Error::InvalidRecordLength,
            ) && final(self)@ == old(self)@,
            cells@.len() == old(self)@.cols.len() ==> {
                let (b2, p2, res) = write_cells(
                    old(self)@.buf,
                    old(self)@.pos,
                    old(self)@.cols,
                    cells.deep_view(),
                );
                final(self)@.buf == b2 && final(self)@.pos == p2 && r == res
            },
    {
        if cells.len() != self.cols.len() {
            return Err(Error::InvalidRecordLength);
        }
        let ghost buf0 = self.buf@;
        let ghost pos0 = self.pos as int;
        let ghost colsv = self.cols.deep_view();
        let ghost cellsv = cells.deep_view();
        let ghost cols0 = self.cols;
        proof {
            assert(colsv.skip(0) =~= colsv);
            assert(cellsv.skip(0) =~= cellsv);
        }
        let mut i: usize = 0;
        while i < self.cols.len()
            invariant
                i <= self.cols@.len(),
                self.cols == cols0,
                cols0 == old(self).cols,
                colsv == self.cols.deep_view(),
                colsv == old(self)@.cols,
                cellsv.len() == colsv.len(),
                colsv.len() == self.cols@.len(),
                cellsv == cells.deep_view(),
                buf0 == old(self)@.buf,
                pos0 == old(self)@.pos,
                self.pos <= self.buf@.len(),
                write_cells(buf0, pos0, colsv, cellsv) == write_cells(
                    self.buf@,
                    self.pos as int,
                    colsv.skip(i as int),
                    cellsv.skip(i as int),
                ),
            decreases self.cols@.len() - i,
        {
            proof {
                assert(colsv.skip(i as int)[0] == colsv[i as int]);
                assert(cellsv.skip(i as int)[0] == cellsv[i as int]);
                assert(colsv[i as int] == self.cols@[i as int]@);
                assert(cellsv[i as int] == cells@[i as int]@);
            }
            let bytes: Vec<u8> = match (self.cols[i].data_type, &cells[i]) {
                (ColumnDataType::String, Cell::String(st)) => encode::string(st.as_str()),
                (ColumnDataType::Number, Cell::Number(bits)) => encode::number(*bits),
                _ => {
                    return Err(Error::InvalidCellType);
                },
            };
            proof {
                assert(bytes@ == cell_enc(cellsv[i as int]));
            }
            if self.pos > usize::MAX - bytes.len() {
                return Err(Error::WriteFailed);
            }
            let newpos = encode::write_bytes(&mut self.buf, self.pos, &bytes);
            self.pos = newpos;
            i = i + 1;
            proof {
                assert(colsv.skip(i - 1).drop_first() =~= colsv.skip(i as int));
                assert(cellsv.skip(i - 1).drop_first() =~= cellsv.skip(i as int));
            }
        }
        proof {
            assert(colsv.skip(colsv.len() as int) =~= Seq::<ColumnV>::empty());
            assert(cellsv.skip(cellsv.len() as int) =~= Seq::<CellV>::empty());
        }
        Ok(())
    }
}

/// The abstract state of a reader: the schema parsed from the header, the
/// source's bytes, and the cursor.
pub struct ReaderV {
    pub cols: Seq<ColumnV>,
    pub data: Seq<u8>,
    pub pos: int,
}

/// Parses rows from an in-memory source against the schema its header
/// declares. The header is parsed at construction; each call then reads
/// one row at the cursor.
#[derive(Debug)]
pub struct TabulaReader {
    cols: Vec<Column>,
    data: Vec<u8>,
    pos: usize,
}

impl View for TabulaReader {
    type V = ReaderV;

    closed spec fn view(&self) -> ReaderV {
        ReaderV { cols: self.cols.deep_view(), data: self.data@, pos: self.pos as int }
    }
}

impl TabulaReader {
    #[verifier::type_invariant]
    spec fn wf(self) -> bool {
        self.pos <= self.data@.len()
    }

    /// Parses the header at the start of `data` and builds a reader whose
    /// cursor sits at the first row's first byte. Any header decode
    /// failure is the caller's, and no reader is returned.
    pub fn new(data: Vec<u8>) -> (r: Result<TabulaReader, Error>)
        ensures
            match schema_dec(data@, 0) {
                Ok((cs, p)) => r is Ok && r.unwrap()@.cols == cs && r.unwrap()@.data == data@
                    && r.unwrap()@.pos == p,
                Err(e) => r is Err && r.unwrap_err() == e,
            },
    {
        let (n, p0) = match encode::decode_varint(&data, 0) {
            Ok(v) => v,
            Err(e) => {
                return Err(e);
            },
        };
        let ghost dv = data@;
        let mut cols: Vec<Column> = Vec::new();
        let mut p: usize = p0;
        let mut i: u64 = 0;
        proof {
            assert(data.len() == data@.len());
            encode::lemma_varint_dec_range(dv, 0, 0, 1);
            assert(cols.deep_view() =~= Seq::<ColumnV>::empty());
        }
        while i < n
            invariant
                i <= n,
                cols_dec_n(dv, p0 as int, n as nat) == (match cols_dec_n(
                    dv,
                    p as int,
                    (n - i) as nat,
                ) {
                    Ok((cs, pp)) => Ok::<(Seq<ColumnV>, int), Error>((cols.deep_view() + cs, pp)),
                    Err(e) => Err::<(Seq<ColumnV>, int), Error>(e),
                }),
                dv == data@,
                dv.len() <= usize::MAX,
                encode::varint_dec(dv, 0) == Ok::<(u64, int), Error>((n, p0 as int)),
            decreases n - i,
        {
            let ghost p_before = p as int;
            let (c, np) = match Column::read_from(&data, p) {
                Ok(v) => v,
                Err(e) => {
                    return Err(e);
                },
            };
            proof {
                lemma_col_dec_range(dv, p_before);
                assert(col_dec(dv, p_before) == Ok::<(ColumnV, int), Error>((c@, np as int)));
            }
            let ghost cols_before = cols.deep_view();
            cols.push(c);
            p = np;
            i = i + 1;
            proof {
                assert(cols.deep_view() =~= cols_before.push(c@));
                assert(cols_dec_n(dv, p_before, (n - i + 1) as nat) == (match cols_dec_n(
                    dv,
                    p as int,
                    (n - i) as nat,
                ) {
                    Ok((cs, pp)) => Ok::<(Seq<ColumnV>, int), Error>((seq![c@] + cs, pp)),
                    Err(e) => Err::<(Seq<ColumnV>, int), Error>(e),
                }));
                let rem = cols_dec_n(dv, p as int, (n - i) as nat);
                if rem is Ok {
                    let (cs, pp) = rem.unwrap();
                    assert(cols_before + (seq![c@] + cs) =~= cols_before.push(c@) + cs);
                }
            }
        }
        proof {
            let rem = cols_dec_n(dv, p as int, 0);
            assert(rem == Ok::<(Seq<ColumnV>, int), Error>((Seq::<ColumnV>::empty(), p as int)));
            assert(cols.deep_view() + Seq::<ColumnV>::empty() =~= cols.deep_view());
            encode::lemma_varint_dec_range(dv, 0, 0, 1);
            lemma_cols_dec_n_range(dv, p0 as int, n as nat);
        }
        Ok(TabulaReader { cols, data, pos: p })
    }

    /// The schema exactly as the header declared it.
    pub fn columns(&self) -> (r: Vec<Column>)
        ensures
            r.deep_view() == self@.cols,
    {
        clone_columns(&self.cols)
    }

    /// Reads one row at the cursor: one cell per column, in schema order.
    /// `EOF` exactly when the source is exhausted at the row boundary; a
    /// failure mid-row is a corrupt or truncated file and leaves the
    /// cursor where it was.
    pub fn read_record(&mut self) -> (r: Result<Vec<Cell>, Error>)
        ensures
            final(self)@.cols == old(self)@.cols,
            final(self)@.data == old(self)@.data,
            match record_dec(old(self)@.data, old(self)@.pos, old(self)@.cols) {
                Ok((cs, p)) => r is Ok && r.unwrap().deep_view() == cs && final(self)@.pos == p,
                Err(e) => r is Err && r.unwrap_err() == e && final(self)@.pos == old(self)@.pos,
            },
    {
        proof {
            use_type_invariant(&*self);
        }
        if self.pos >= self.data.len() {
            return Err(Error::EOF);
        }
        let ghost dv = self.data@;
        let ghost pos0 = self.pos as int;
        let ghost colsv = self.cols.deep_view();
        let ghost cols0 = self.cols;
        let mut cells: Vec<Cell> = Vec::new();
        let mut p: usize = self.pos;
        let mut i: usize = 0;
        proof {
            assert(colsv.skip(0) =~= colsv);
            assert(cells.deep_view() =~= Seq::<CellV>::empty());
        }
        while i < self.cols.len()
            invariant
                i <= self.cols@.len(),
                *self == *old(self),
                self.cols == cols0,
                colsv == self.cols.deep_view(),
                colsv == old(self)@.cols,
                colsv.len() == self.cols@.len(),
                dv == self.data@,
                dv == old(self)@.data,
                dv.len() <= usize::MAX,
                pos0 == old(self)@.pos,
                pos0 < dv.len(),
                cells_dec(dv, pos0, colsv) == (match cells_dec(
                    dv,
                    p as int,
                    colsv.skip(i as int),
                ) {
                    Ok((cs, pp)) => Ok::<(Seq<CellV>, int), Error>((cells.deep_view() + cs, pp)),
                    Err(e) => Err::<(Seq<CellV>, int), Error>(e),
                }),
            decreases self.cols@.len() - i,
        {
            proof {
                assert(colsv.skip(i as int)[0] == colsv[i as int]);
                assert(colsv[i as int] == self.cols@[i as int]@);
            }
            let ghost p_before = p as int;
            let cell: Cell;
            let np: usize;
            match self.cols[i].data_type {
                ColumnDataType::String => {
                    match encode::decode_string(&self.data, p) {
                        Ok(v) => {
                            cell = Cell::String(v.0);
                            np = v.1;
                        },
                        Err(e) => {
                            return Err(if e == Error::EOF {
                                Error::MalformedStream
                            } else {
                                e
                            });
                        },
                    }
                },
                ColumnDataType::Number => {
                    match encode::decode_number(&self.data, p) {
                        Ok(v) => {
                            cell = Cell::Number(v.0);
                            np = v.1;
                        },
                        Err(e) => {
                            return Err(if e == Error::EOF {
                                Error::MalformedStream
                            } else {
                                e
                            });
                        },
                    }
                },
            }
            let ghost cells_before = cells.deep_view();
            let ghost cellv = cell@;
            proof {
                lemma_str_dec_range(dv, p_before);
                assert(cell_dec(dv, p_before, colsv[i as int].data_type) == Ok::<
                    (CellV, int),
                    Error,
                >((cellv, np as int)));
            }
            cells.push(cell);
            p = np;
            i = i + 1;
            proof {
                assert(colsv.skip(i - 1).drop_first() =~= colsv.skip(i as int));
                assert(cells_dec(dv, p_before, colsv.skip(i - 1)) == (match cells_dec(
                    dv,
                    p as int,
                    colsv.skip(i as int),
                ) {
                    Ok((cs, pp)) => Ok::<(Seq<CellV>, int), Error>((seq![cellv] + cs, pp)),
                    Err(e) => Err::<(Seq<CellV>, int), Error>(e),
                }));
                assert(cells.deep_view() =~= cells_before.push(cellv));
                let rem = cells_dec(dv, p as int, colsv.skip(i as int));
                if rem is Ok {
                    let (cs, pp) = rem.unwrap();
                    assert(cells_before + (seq![cellv] + cs) =~= cells_before.push(cellv) + cs);
                }
            }
        }
        proof {
            assert(colsv.skip(colsv.len() as int) =~= Seq::<ColumnV>::empty());
            assert(cells.deep_view() + Seq::<CellV>::empty() =~= cells.deep_view());
            lemma_cells_dec_range(dv, pos0, colsv);
        }
        self.pos = p;
        Ok(cells)
    }
}

/// A cell's wire form is never empty.
pub proof fn lemma_cell_enc_nonempty(c: CellV)
    ensures
        cell_enc(c).len() >= 1,
{
    match c {
        CellV::String(sv) => {
            encode::lemma_varint_enc_len(vstd::utf8::encode_utf8(sv).len());
        },
        CellV::Number(bits) => {
            encode::lemma_le_enc_len(bits as nat, 8);
        },
    }
}

/// A schema's column list encodes to at least one byte per column.
pub proof fn lemma_cols_enc_len(cols: Seq<ColumnV>)
    ensures
        cols_enc(cols).len() >= cols.len(),
    decreases cols.len(),
{
    if cols.len() > 0 {
        lemma_cols_enc_len(cols.drop_first());
    }
}

/// Law (round trip, column): the wire form of a column at `pos` decodes
/// back to that column, ending just past it.
pub proof fn lemma_col_round_trip(b: Seq<u8>, pos: int, c: ColumnV)
    requires
        0 <= pos,
        pos + col_enc(c).len() <= b.len(),
        b.subrange(pos, pos + col_enc(c).len() as int) == col_enc(c),
        b.len() <= u64::MAX,
    ensures
        col_dec(b, pos) == Ok::<(ColumnV, int), Error>((c, pos + col_enc(c).len())),
{
    let tag = seq![tag_of(c.data_type)];
    let se = encode::str_enc(c.name);
    encode::lemma_subrange_split(b, pos, tag, se);
    assert(b[pos] == b.subrange(pos, pos + 1)[0]);
    assert(b[pos] == tag_of(c.data_type));
    encode::lemma_str_round_trip(b, pos + 1, c.name);
}

/// Law (round trip, column list): the wire forms of the columns at `pos`
/// decode back to them, in order.
pub proof fn lemma_cols_round_trip(b: Seq<u8>, pos: int, cols: Seq<ColumnV>)
    requires
        0 <= pos,
        pos + cols_enc(cols).len() <= b.len(),
        b.subrange(pos, pos + cols_enc(cols).len() as int) == cols_enc(cols),
        b.len() <= u64::MAX,
    ensures
        cols_dec_n(b, pos, cols.len()) == Ok::<(Seq<ColumnV>, int), Error>(
            (cols, pos + cols_enc(cols).len()),
        ),
    decreases cols.len(),
{
    if cols.len() == 0 {
        assert(cols_dec_n(b, pos, 0) == Ok::<(Seq<ColumnV>, int), Error>((seq![], pos)));
        assert(cols =~= Seq::<ColumnV>::empty());
    } else {
        let ce = col_enc(cols[0]);
        let rest = cols_enc(cols.drop_first());
        encode::lemma_subrange_split(b, pos, ce, rest);
        lemma_col_round_trip(b, pos, cols[0]);
        lemma_cols_round_trip(b, pos + ce.len(), cols.drop_first());
        assert(seq![cols[0]] + cols.drop_first() =~= cols);
    }
}

/// Law (round trip, header): the wire form of a schema at `pos` decodes
/// back to that schema, ending just past it.
pub proof fn lemma_schema_round_trip(b: Seq<u8>, pos: int, cols: Seq<ColumnV>)
    requires
        0 <= pos,
        pos + schema_enc(cols).len() <= b.len(),
        b.subrange(pos, pos + schema_enc(cols).len() as int) == schema_enc(cols),
        b.len() <= u64::MAX,
    ensures
        schema_dec(b, pos) == Ok::<(Seq<ColumnV>, int), Error>(
            (cols, pos + schema_enc(cols).len()),
        ),
{
    lemma_cols_enc_len(cols);
    let cv = encode::varint_enc(cols.len());
    let ce = cols_enc(cols);
    encode::lemma_subrange_split(b, pos, cv, ce);
    encode::lemma_varint_round_trip_at(b, pos, cols.len() as u64);
    lemma_cols_round_trip(b, pos + cv.len(), cols);
}

/// Law (round trip, cell): the wire form of a cell at `pos`, read against
/// its column's type, decodes back to that cell.
pub proof fn lemma_cell_round_trip(b: Seq<u8>, pos: int, c: CellV, t: ColumnDataType)
    requires
        0 <= pos,
        cell_matches(c, t),
        pos + cell_enc(c).len() <= b.len(),
        b.subrange(pos, pos + cell_enc(c).len() as int) == cell_enc(c),
        b.len() <= u64::MAX,
    ensures
        cell_dec(b, pos, t) == Ok::<(CellV, int), Error>((c, pos + cell_enc(c).len())),
{
    match c {
        CellV::String(sv) => {
            encode::lemma_str_round_trip(b, pos, sv);
        },
        CellV::Number(bits) => {
            encode::lemma_le_enc_len(bits as nat, 8);
            encode::lemma_pow256_values();
            encode::lemma_le_round_trip(b, pos, bits as nat, 8);
        },
    }
}

/// Law (round trip, row): the wire forms of a matching row's cells at
/// `pos` decode back to them, in order.
pub proof fn lemma_row_round_trip(b: Seq<u8>, pos: int, cells: Seq<CellV>, cols: Seq<ColumnV>)
    requires
        0 <= pos,
        row_matches(cells, cols),
        pos + cells_enc(cells).len() <= b.len(),
        b.subrange(pos, pos + cells_enc(cells).len() as int) == cells_enc(cells),
        b.len() <= u64::MAX,
    ensures
        cells_dec(b, pos, cols) == Ok::<(Seq<CellV>, int), Error>(
            (cells, pos + cells_enc(cells).len()),
        ),
    decreases cols.len(),
{
    if cols.len() == 0 {
        assert(cells =~= Seq::<CellV>::empty());
    } else {
        let ce = cell_enc(cells[0]);
        let rest = cells_enc(cells.drop_first());
        encode::lemma_subrange_split(b, pos, ce, rest);
        lemma_cell_round_trip(b, pos, cells[0], cols[0].data_type);
        assert(row_matches(cells.drop_first(), cols.drop_first())) by {
            assert(forall|i: int|
                0 <= i < cells.drop_first().len() ==> cell_matches(
                    #[trigger] cells.drop_first()[i],
                    cols.drop_first()[i].data_type,
                )) by {
                assert(forall|i: int|
                    0 <= i < cells.drop_first().len() ==> cells.drop_first()[i] == cells[i + 1]
                        && cols.drop_first()[i] == cols[i + 1]);
            }
        }
        lemma_row_round_trip(b, pos + ce.len(), cells.drop_first(), cols.drop_first());
        assert(seq![cells[0]] + cells.drop_first() =~= cells);
    }
}

/// Law (round trip, row stream): the wire forms of matching rows at `pos`
/// decode back, row by row, to the same rows.
pub proof fn lemma_rows_round_trip(b: Seq<u8>, pos: int, cols: Seq<ColumnV>, rows: Seq<Seq<CellV>>)
    requires
        0 <= pos,
        cols.len() > 0 || rows.len() == 0,
        forall|i: int| 0 <= i < rows.len() ==> row_matches(#[trigger] rows[i], cols),
        pos + rows_enc(rows).len() <= b.len(),
        b.subrange(pos, pos + rows_enc(rows).len() as int) == rows_enc(rows),
        b.len() <= u64::MAX,
    ensures
        rows_dec_n(b, pos, cols, rows.len()) == Ok::<(Seq<Seq<CellV>>, int), Error>(
            (rows, pos + rows_enc(rows).len()),
        ),
    decreases rows.len(),
{
    if rows.len() == 0 {
        assert(rows =~= Seq::<Seq<CellV>>::empty());
    } else {
        let re = cells_enc(rows[0]);
        let rest = rows_enc(rows.drop_first());
        encode::lemma_subrange_split(b, pos, re, rest);
        assert(row_matches(rows[0], cols));
        assert(rows[0].len() > 0);
        lemma_cell_enc_nonempty(rows[0][0]);
        assert(re.len() >= 1);
        assert(pos < b.len());
        lemma_row_round_trip(b, pos, rows[0], cols);
        assert(forall|i: int|
            0 <= i < rows.drop_first().len() ==> row_matches(
                #[trigger] rows.drop_first()[i],
                cols,
            )) by {
            assert(forall|i: int|
                0 <= i < rows.drop_first().len() ==> rows.drop_first()[i] == rows[i + 1]);
        }
        lemma_rows_round_trip(b, pos + re.len(), cols, rows.drop_first());
        assert(seq![rows[0]] + rows.drop_first() =~= rows);
    }
}

/// Law (round trip, whole file): for any schema and any rows that match
/// it, the encoded file decodes back to exactly that schema and, read one
/// record at a time, exactly those rows; one more read at the end of the
/// file is `EOF`. The one excluded corner is a schema with no columns and
/// one or more rows: its rows are zero-length and leave no bytes, so a
/// reader meets the end of the file at once.
pub proof fn lemma_file_round_trip(cols: Seq<ColumnV>, rows: Seq<Seq<CellV>>)
    requires
        cols.len() > 0 || rows.len() == 0,
        forall|i: int| 0 <= i < rows.len() ==> row_matches(#[trigger] rows[i], cols),
        schema_enc(cols).len() + rows_enc(rows).len() <= u64::MAX,
    ensures
        ({
            let file = schema_enc(cols) + rows_enc(rows);
            &&& schema_dec(file, 0) == Ok::<(Seq<ColumnV>, int), Error>(
                (cols, schema_enc(cols).len() as int),
            )
            &&& rows_dec_n(file, schema_enc(cols).len() as int, cols, rows.len()) == Ok::<
                (Seq<Seq<CellV>>, int),
                Error,
            >((rows, file.len() as int))
            &&& record_dec(file, file.len() as int, cols) == Err::<(Seq<CellV>, int), Error>(
                Error::EOF,
            )
        }),
{
    let file = schema_enc(cols) + rows_enc(rows);
    assert(file.subrange(0, file.len() as int) =~= file);
    encode::lemma_subrange_split(file, 0, schema_enc(cols), rows_enc(rows));
    lemma_schema_round_trip(file, 0, cols);
    lemma_rows_round_trip(file, schema_enc(cols).len() as int, cols, rows);
}

/// A row's wire form is the head cell's wire form followed by the rest.
pub proof fn lemma_cells_enc_step(cells: Seq<CellV>)
    requires
        cells.len() > 0,
    ensures
        cells_enc(cells) == cell_enc(cells[0]) + cells_enc(cells.drop_first()),
{
}

/// Law (type agreement, success): a row whose every cell matches its
/// column is written whole — the cells' wire forms land at the cursor, in
/// order, and the call succeeds — whenever the sink can hold them.
pub proof fn lemma_write_cells_ok(buf: Seq<u8>, pos: int, cols: Seq<ColumnV>, cells: Seq<CellV>)
    requires
        0 <= pos <= buf.len(),
        row_matches(cells, cols),
        pos + cells_enc(cells).len() <= usize::MAX,
    ensures
        write_cells(buf, pos, cols, cells) == (
            encode::splice(buf, pos, cells_enc(cells)),
            pos + cells_enc(cells).len(),
            Ok::<(), Error>(()),
        ),
    decreases cols.len(),
{
    if cols.len() == 0 {
        assert(cells =~= Seq::<CellV>::empty());
        assert(encode::splice(buf, pos, cells_enc(cells)) =~= buf);
    } else {
        let e0 = cell_enc(cells[0]);
        let buf1 = encode::splice(buf, pos, e0);
        assert(buf1.len() >= pos + e0.len());
        assert(row_matches(cells.drop_first(), cols.drop_first())) by {
            assert(forall|i: int|
                0 <= i < cells.drop_first().len() ==> cells.drop_first()[i] == cells[i + 1]
                    && cols.drop_first()[i] == cols[i + 1]);
        }
        lemma_write_cells_ok(buf1, pos + e0.len(), cols.drop_first(), cells.drop_first());
        encode::lemma_splice_concat(buf, pos, e0, cells_enc(cells.drop_first()));
    }
}

/// Law (type enforcement): the first cell whose variant does not match its
/// column's declared type stops the write with `InvalidCellType`; the
/// matching cells before it are already written, and nothing more is.
pub proof fn lemma_write_cells_mismatch(
    buf: Seq<u8>,
    pos: int,
    cols: Seq<ColumnV>,
    cells: Seq<CellV>,
    i: int,
)
    requires
        0 <= pos <= buf.len(),
        cells.len() == cols.len(),
        0 <= i < cells.len(),
        !cell_matches(cells[i], cols[i].data_type),
        forall|j: int| 0 <= j < i ==> cell_matches(#[trigger] cells[j], cols[j].data_type),
        pos + cells_enc(cells.take(i)).len() <= usize::MAX,
    ensures
        write_cells(buf, pos, cols, cells) == (
            encode::splice(buf, pos, cells_enc(cells.take(i))),
            pos + cells_enc(cells.take(i)).len(),
            Err::<(), Error>(Error::InvalidCellType),
        ),
    decreases i,
{
    if i == 0 {
        assert(cells.take(0) =~= Seq::<CellV>::empty());
        assert(encode::splice(buf, pos, cells_enc(cells.take(0))) =~= buf);
    } else {
        let e0 = cell_enc(cells[0]);
        let buf1 = encode::splice(buf, pos, e0);
        assert(buf1.len() >= pos + e0.len());
        assert(cells.take(i)[0] == cells[0]);
        assert(cells.take(i).drop_first() =~= cells.drop_first().take(i - 1));
        lemma_cells_enc_step(cells.take(i));
        assert(forall|k: int|
            0 <= k < cells.drop_first().len() ==> cells.drop_first()[k] == cells[k + 1]
                && cols.drop_first()[k] == cols[k + 1]);
        lemma_write_cells_mismatch(
            buf1,
            pos + e0.len(),
            cols.drop_first(),
            cells.drop_first(),
            i - 1,
        );
        encode::lemma_splice_concat(buf, pos, e0, cells_enc(cells.drop_first().take(i - 1)));
    }
}

} // verus!
