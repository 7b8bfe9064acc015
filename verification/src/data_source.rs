//! Tabular data for data-driven widgets: typed cell values, their order,
//! a column-major table that can be filled, edited and sorted, and a
//! provider that holds data sources by id.
use vstd::prelude::*;
use crate::text_util::{chars_equal, chars_to_string, str_to_chars};

verus! {

/// Sort direction for table columns.
#[derive(Debug, Clone, Copy, PartialEq, Eq, Structural)]
pub enum SortDirection {
    /// Ascending order (A-Z, 0-9).
    Ascending,
    /// Descending order (Z-A, 9-0).
    Descending,
}

/// The outcome of comparing two cells.
#[derive(Debug, Clone, Copy, PartialEq, Eq, Structural)]
pub enum CellOrder {
    Less,
    Equal,
    Greater,
}

/// A floating-point cell as the table sees it: the key by which it is
/// ordered (none for a value that is not a number, which compares equal to
/// every number) and the text it is shown as.
#[derive(Debug)]
pub struct NumberCell {
    pub key: Option<i64>,
    pub text: String,
}

/// A cell value with type information for sorting.
#[derive(Debug)]
pub enum CellValue {
    /// Text value.
    Text(String),
    /// Floating-point number.
    Number(NumberCell),
    /// Integer value.
    Integer(i64),
    /// Boolean value.
    Boolean(bool),
    /// Empty value.
    Empty,
}

/// The mathematical value of a [`CellValue`].
pub ghost enum CellView {
    Text(Seq<char>),
    Number(Option<i64>, Seq<char>),
    Integer(i64),
    Boolean(bool),
    Empty,
}

impl View for CellValue {
    type V = CellView;

    open spec fn view(&self) -> CellView {
        match self {
            CellValue::Text(s) => CellView::Text(s@),
            CellValue::Number(n) => CellView::Number(n.key, n.text@),
            CellValue::Integer(i) => CellView::Integer(*i),
            CellValue::Boolean(b) => CellView::Boolean(*b),
            CellValue::Empty => CellView::Empty,
        }
    }
}

/// The character of a decimal digit.
pub open spec fn digit_char(d: nat) -> char {
    if d == 0 {
        '0'
    } else if d == 1 {
        '1'
    } else if d == 2 {
        '2'
    } else if d == 3 {
        '3'
    } else if d == 4 {
        '4'
    } else if d == 5 {
        '5'
    } else if d == 6 {
        '6'
    } else if d == 7 {
        '7'
    } else if d == 8 {
        '8'
    } else {
        '9'
    }
}

/// The decimal digits of `n`, most significant first.
pub open spec fn digits(n: nat) -> Seq<char>
    decreases n,
{
    if n < 10 {
        seq![digit_char(n)]
    } else {
        digits(n / 10).push(digit_char(n % 10))
    }
}

/// The decimal text of an integer.
pub open spec fn decimal(i: int) -> Seq<char> {
    if i < 0 {
        seq!['-'] + digits((-i) as nat)
    } else {
        digits(i as nat)
    }
}

/// The text a cell is shown as.
pub open spec fn text_of(c: CellView) -> Seq<char> {
    match c {
        CellView::Text(s) => s,
        CellView::Number(_, t) => t,
        CellView::Integer(i) => decimal(i as int),
        CellView::Boolean(b) => if b {
            seq!['t', 'r', 'u', 'e']
        } else {
            seq!['f', 'a', 'l', 's', 'e']
        },
        CellView::Empty => Seq::empty(),
    }
}

pub open spec fn int_order(a: int, b: int) -> CellOrder {
    if a < b {
        CellOrder::Less
    } else if a == b {
        CellOrder::Equal
    } else {
        CellOrder::Greater
    }
}

/// Lexicographic order of character sequences.
pub open spec fn text_order(a: Seq<char>, b: Seq<char>) -> CellOrder
    decreases a.len(),
{
    if a.len() == 0 {
        if b.len() == 0 {
            CellOrder::Equal
        } else {
            CellOrder::Less
        }
    } else if b.len() == 0 {
        CellOrder::Greater
    } else if (a[0] as u32) < (b[0] as u32) {
        CellOrder::Less
    } else if (a[0] as u32) > (b[0] as u32) {
        CellOrder::Greater
    } else {
        text_order(a.drop_first(), b.drop_first())
    }
}

/// Text order is lexicographic: a text that is a proper prefix of another
/// comes before it (so the empty text comes before every other text), the
/// longer one comes after, and two texts that agree up to a position `k`
/// are ordered by their characters at `k`.
pub proof fn lemma_text_order_lexicographic(a: Seq<char>, b: Seq<char>, k: int)
    requires
        0 <= k <= a.len(),
        k <= b.len(),
        a.subrange(0, k) == b.subrange(0, k),
    ensures
        k == a.len() && a.len() < b.len() ==> text_order(a, b) == CellOrder::Less
            && text_order(b, a) == CellOrder::Greater,
        k == a.len() && k == b.len() ==> text_order(a, b) == CellOrder::Equal,
        k < a.len() && k < b.len() && (a[k] as u32) < (b[k] as u32) ==> text_order(a, b)
            == CellOrder::Less && text_order(b, a) == CellOrder::Greater,
    decreases k,
{
    if k > 0 {
        assert(a[0] == a.subrange(0, k)[0]);
        assert(b[0] == b.subrange(0, k)[0]);
        let a1 = a.drop_first();
        let b1 = b.drop_first();
        assert(a1.subrange(0, k - 1) =~= a.subrange(0, k).drop_first());
        assert(b1.subrange(0, k - 1) =~= b.subrange(0, k).drop_first());
        lemma_text_order_lexicographic(a1, b1, k - 1);
        if k < a.len() && k < b.len() {
            assert(a1[k - 1] == a[k] && b1[k - 1] == b[k]);
        }
    }
}

/// Cells of one kind compare by value: integers numerically, `false` before
/// `true`; the empty cell comes before every other cell; and a descending
/// sort orders every pair of cells the other way round.
pub proof fn lemma_cell_order_values(x: i64, y: i64, c: CellView, d: CellView)
    ensures
        cell_order(CellView::Integer(x), CellView::Integer(y)) == Some(
            if x < y {
                CellOrder::Less
            } else if x == y {
                CellOrder::Equal
            } else {
                CellOrder::Greater
            },
        ),
        cell_order(CellView::Boolean(false), CellView::Boolean(true)) == Some(CellOrder::Less),
        cell_order(CellView::Boolean(true), CellView::Boolean(false)) == Some(CellOrder::Greater),
        c != CellView::Empty ==> cell_order(CellView::Empty, c) == Some(CellOrder::Less) && cell_order(
            c,
            CellView::Empty,
        ) == Some(CellOrder::Greater),
        sort_order(SortDirection::Descending, c, d) == reverse_order(
            sort_order(SortDirection::Ascending, c, d),
        ),
{
}

/// Two text cells compare as their texts do lexicographically: a proper
/// prefix comes first.
pub proof fn lemma_text_cells_prefix_first(a: Seq<char>, b: Seq<char>)
    requires
        a.len() < b.len(),
        b.subrange(0, a.len() as int) == a,
    ensures
        cell_order(CellView::Text(a), CellView::Text(b)) == Some(CellOrder::Less),
        cell_order(CellView::Text(b), CellView::Text(a)) == Some(CellOrder::Greater),
{
    assert(a.subrange(0, a.len() as int) =~= a);
    lemma_text_order_lexicographic(a, b, a.len() as int);
}

/// How two cells compare: values of one type by their own order, the empty
/// cell below every other, and values of different types by their text.
/// Two numbers without a common order are not comparable.
pub open spec fn cell_order(a: CellView, b: CellView) -> Option<CellOrder> {
    match (a, b) {
        (CellView::Text(x), CellView::Text(y)) => Some(text_order(x, y)),
        (CellView::Number(kx, _), CellView::Number(ky, _)) => match (kx, ky) {
            (Some(x), Some(y)) => Some(int_order(x as int, y as int)),
            _ => None,
        },
        (CellView::Integer(x), CellView::Integer(y)) => Some(int_order(x as int, y as int)),
        (CellView::Boolean(x), CellView::Boolean(y)) => Some(
            int_order(if x { 1 } else { 0 }, if y { 1 } else { 0 }),
        ),
        (CellView::Empty, CellView::Empty) => Some(CellOrder::Equal),
        (CellView::Empty, _) => Some(CellOrder::Less),
        (_, CellView::Empty) => Some(CellOrder::Greater),
        _ => Some(text_order(text_of(a), text_of(b))),
    }
}

pub open spec fn reverse_order(o: CellOrder) -> CellOrder {
    match o {
        CellOrder::Less => CellOrder::Greater,
        CellOrder::Equal => CellOrder::Equal,
        CellOrder::Greater => CellOrder::Less,
    }
}

/// The order used to sort a column: cells that cannot be compared count as
/// equal, and a descending sort reverses the order.
pub open spec fn sort_order(dir: SortDirection, a: CellView, b: CellView) -> CellOrder {
    let o = match cell_order(a, b) {
        Some(o) => o,
        None => CellOrder::Equal,
    };
    match dir {
        SortDirection::Ascending => o,
        SortDirection::Descending => reverse_order(o),
    }
}

/// Swapping two texts reverses their order.
pub proof fn lemma_text_order_swap(a: Seq<char>, b: Seq<char>)
    ensures
        text_order(b, a) == reverse_order(text_order(a, b)),
    decreases a.len(),
{
    if a.len() > 0 && b.len() > 0 && (a[0] as u32) == (b[0] as u32) {
        lemma_text_order_swap(a.drop_first(), b.drop_first());
    }
}

/// Comparing two cells the other way round gives the reverse outcome.
pub proof fn lemma_cell_order_swap(a: CellView, b: CellView)
    ensures
        cell_order(b, a) == match cell_order(a, b) {
            Some(o) => Some(reverse_order(o)),
            None => None,
        },
{
    lemma_text_order_swap(text_of(a), text_of(b));
    match (a, b) {
        (CellView::Text(x), CellView::Text(y)) => lemma_text_order_swap(x, y),
        _ => {},
    }
}

/// Swapping the cells reverses the sort order, in either direction.
pub proof fn lemma_sort_order_swap(dir: SortDirection, a: CellView, b: CellView)
    ensures
        sort_order(dir, b, a) == reverse_order(sort_order(dir, a, b)),
{
    lemma_cell_order_swap(a, b);
}

fn digit_char_exec(d: u64) -> (c: char)
    requires
        d < 10,
    ensures
        c == digit_char(d as nat),
{
    if d == 0 {
        '0'
    } else if d == 1 {
        '1'
    } else if d == 2 {
        '2'
    } else if d == 3 {
        '3'
    } else if d == 4 {
        '4'
    } else if d == 5 {
        '5'
    } else if d == 6 {
        '6'
    } else if d == 7 {
        '7'
    } else if d == 8 {
        '8'
    } else {
        '9'
    }
}

pub(crate) fn push_digits(n: u64, out: &mut Vec<char>)
    ensures
        final(out)@ == old(out)@ + digits(n as nat),
    decreases n,
{
    if n >= 10 {
        push_digits(n / 10, out);
    }
    let c = digit_char_exec(n % 10);
    out.push(c);
}

/// The characters of a cell's text.
pub fn cell_chars(c: &CellValue) -> (v: Vec<char>)
    ensures
        v@ == text_of(c@),
{
    match c {
        CellValue::Text(s) => str_to_chars(s.as_str()),
        CellValue::Number(n) => str_to_chars(n.text.as_str()),
        CellValue::Integer(i) => {
            let mut v: Vec<char> = Vec::new();
            let ghost i0: int = *i as int;
            if *i < 0 {
                v.push('-');
                let mag: u64 = (0i128 - (*i as i128)) as u64;
                push_digits(mag, &mut v);
            } else {
                push_digits(*i as u64, &mut v);
            }
            assert(v@ =~= decimal(i0));
            v
        },
        CellValue::Boolean(b) => {
            if *b {
                vec!['t', 'r', 'u', 'e']
            } else {
                vec!['f', 'a', 'l', 's', 'e']
            }
        },
        CellValue::Empty => Vec::new(),
    }
}

fn text_order_exec(a: &Vec<char>, b: &Vec<char>) -> (o: CellOrder)
    ensures
        o == text_order(a@, b@),
{
    let mut i: usize = 0;
    assert(a@.skip(0) =~= a@);
    assert(b@.skip(0) =~= b@);
    while i < a.len() && i < b.len()
        invariant
            i <= a.len(),
            i <= b.len(),
            text_order(a@, b@) == text_order(a@.skip(i as int), b@.skip(i as int)),
        decreases a.len() - i,
    {
        if (a[i] as u32) < (b[i] as u32) {
            return CellOrder::Less;
        } else if (a[i] as u32) > (b[i] as u32) {
            return CellOrder::Greater;
        }
        assert(a@.skip(i as int).drop_first() =~= a@.skip(i + 1));
        assert(b@.skip(i as int).drop_first() =~= b@.skip(i + 1));
        i = i + 1;
    }
    if i == a.len() {
        if i == b.len() {
            CellOrder::Equal
        } else {
            CellOrder::Less
        }
    } else {
        CellOrder::Greater
    }
}

fn int_order_exec(a: i64, b: i64) -> (o: CellOrder)
    ensures
        o == int_order(a as int, b as int),
{
    if a < b {
        CellOrder::Less
    } else if a == b {
        CellOrder::Equal
    } else {
        CellOrder::Greater
    }
}

impl CellValue {
    /// How this cell compares with `other`; `None` where two numbers have no
    /// common order.
    pub fn compare(&self, other: &CellValue) -> (o: Option<CellOrder>)
        ensures
            o == cell_order(self@, other@),
    {
        match (self, other) {
            (CellValue::Text(x), CellValue::Text(y)) => {
                let xs = str_to_chars(x.as_str());
                let ys = str_to_chars(y.as_str());
                Some(text_order_exec(&xs, &ys))
            },
            (CellValue::Number(x), CellValue::Number(y)) => match (x.key, y.key) {
                (Some(p), Some(q)) => Some(int_order_exec(p, q)),
                _ => None,
            },
            (CellValue::Integer(x), CellValue::Integer(y)) => Some(int_order_exec(*x, *y)),
            (CellValue::Boolean(x), CellValue::Boolean(y)) => {
                let p: i64 = if *x { 1 } else { 0 };
                let q: i64 = if *y { 1 } else { 0 };
                Some(int_order_exec(p, q))
            },
            (CellValue::Empty, CellValue::Empty) => Some(CellOrder::Equal),
            (CellValue::Empty, _) => Some(CellOrder::Less),
            (_, CellValue::Empty) => Some(CellOrder::Greater),
            _ => {
                let xs = cell_chars(self);
                let ys = cell_chars(other);
                Some(text_order_exec(&xs, &ys))
            },
        }
    }

    /// The text the cell is shown as.
    pub fn to_text(&self) -> (s: String)
        ensures
            s@ == text_of(self@),
    {
        let v = cell_chars(self);
        chars_to_string(&v)
    }

    /// A copy of the cell.
    pub fn copy(&self) -> (c: CellValue)
        ensures
            c@ == self@,
    {
        match self {
            CellValue::Text(s) => CellValue::Text(s.clone()),
            CellValue::Number(n) => CellValue::Number(NumberCell { key: n.key, text: n.text.clone() }),
            CellValue::Integer(i) => CellValue::Integer(*i),
            CellValue::Boolean(b) => CellValue::Boolean(*b),
            CellValue::Empty => CellValue::Empty,
        }
    }
}

/// The order in which a column is sorted, as a comparison of two cells.
fn sort_order_exec(dir: SortDirection, a: &CellValue, b: &CellValue) -> (o: CellOrder)
    ensures
        o == sort_order(dir, a@, b@),
{
    let o = match a.compare(b) {
        Some(o) => o,
        None => CellOrder::Equal,
    };
    match dir {
        SortDirection::Ascending => o,
        SortDirection::Descending => match o {
            CellOrder::Less => CellOrder::Greater,
            CellOrder::Equal => CellOrder::Equal,
            CellOrder::Greater => CellOrder::Less,
        },
    }
}

/// A table as its column headers, its cells column by column, and a version
/// count that grows by one with each change.
pub ghost struct TableView {
    pub headers: Seq<Seq<char>>,
    pub columns: Seq<Seq<CellView>>,
    pub version: u64,
}

pub open spec fn column_view(col: Seq<CellValue>) -> Seq<CellView> {
    col.map_values(|c: CellValue| c@)
}

pub open spec fn strings_view(v: Seq<String>) -> Seq<Seq<char>> {
    v.map_values(|s: String| s@)
}

pub open spec fn rows_view(rows: Seq<Vec<CellValue>>) -> Seq<Seq<CellView>> {
    rows.map_values(|r: Vec<CellValue>| column_view(r@))
}

/// The number of rows: the length of the first column, or none without columns.
pub open spec fn table_rows(t: TableView) -> nat {
    if t.columns.len() == 0 {
        0
    } else {
        t.columns[0].len()
    }
}

/// One column per header, all of the same length.
pub open spec fn table_ok(t: TableView) -> bool {
    &&& t.columns.len() == t.headers.len()
    &&& forall|c: int| 0 <= c < t.columns.len() ==> #[trigger] t.columns[c].len() == table_rows(t)
}

/// The cell that a row gives to column `c`: empty past the row's end.
pub open spec fn padded(row: Seq<CellView>, c: int) -> CellView {
    if c < row.len() {
        row[c]
    } else {
        CellView::Empty
    }
}

/// The columns after appending `row`.
pub open spec fn append_row(cols: Seq<Seq<CellView>>, row: Seq<CellView>) -> Seq<Seq<CellView>> {
    Seq::new(cols.len(), |c: int| cols[c].push(padded(row, c)))
}

/// Whether a cell is stored at `row` in column `col`.
pub open spec fn has_cell(t: TableView, row: int, col: int) -> bool {
    0 <= col < t.columns.len() && 0 <= row < t.columns[col].len()
}

/// The cell at `row` in column `col`, or the empty cell where there is none.
pub open spec fn cell_at(t: TableView, row: int, col: int) -> CellView {
    if has_cell(t, row, col) {
        t.columns[col][row]
    } else {
        CellView::Empty
    }
}

/// `p` lists each of the indices below `n` once.
pub open spec fn is_permutation(p: Seq<int>, n: nat) -> bool {
    &&& p.len() == n
    &&& forall|i: int| 0 <= i < n ==> 0 <= #[trigger] p[i] < n
    &&& forall|i: int, j: int| 0 <= i < j < n ==> p[i] != p[j]
}

/// Row `a` may stand right before row `b` in a column sorted in direction
/// `dir`: it is not greater, and where the two are equal it came first.
pub open spec fn in_order(col: Seq<CellView>, dir: SortDirection, a: int, b: int) -> bool {
    let o = sort_order(dir, col[a], col[b]);
    o != CellOrder::Greater && (o == CellOrder::Equal ==> a < b)
}

/// Taking the rows of `col` in the order `p` sorts them stably.
pub open spec fn sorts_stably(p: Seq<int>, col: Seq<CellView>, dir: SortDirection) -> bool {
    forall|i: int| 0 <= i < p.len() - 1 ==> #[trigger] in_order(col, dir, p[i], p[i + 1])
}

/// The columns with their rows taken in the order `p`.
pub open spec fn reorder(cols: Seq<Seq<CellView>>, p: Seq<int>) -> Seq<Seq<CellView>> {
    Seq::new(cols.len(), |c: int| Seq::new(p.len(), |i: int| cols[c][p[i]]))
}

/// Simple vector-based data source, stored column by column.
pub struct VecDataSource {
    headers: Vec<String>,
    data: Vec<Vec<CellValue>>,
    version: u64,
}

impl VecDataSource {
    pub closed spec fn table(&self) -> TableView {
        TableView {
            headers: strings_view(self.headers@),
            columns: self.data@.map_values(|col: Vec<CellValue>| column_view(col@)),
            version: self.version,
        }
    }
}

impl View for VecDataSource {
    type V = TableView;

    open spec fn view(&self) -> TableView {
        self.table()
    }
}

impl VecDataSource {
    /// An empty table with the given column headers.
    pub fn with_columns(columns: Vec<String>) -> (t: Self)
        ensures
            table_ok(t@),
            t@.headers == strings_view(columns@),
            t@.columns == Seq::new(columns@.len(), |c: int| Seq::<CellView>::empty()),
            t@.version == 0,
    {
        let n = columns.len();
        let mut data: Vec<Vec<CellValue>> = Vec::new();
        let mut c: usize = 0;
        while c < n
            invariant
                c <= n,
                data@.len() == c,
                forall|k: int| 0 <= k < c ==> (#[trigger] data@[k])@.len() == 0,
            decreases n - c,
        {
            data.push(Vec::new());
            c = c + 1;
        }
        let t = VecDataSource { headers: columns, data, version: 0 };
        assert forall|k: int| 0 <= k < n implies #[trigger] t@.columns[k] =~= Seq::<CellView>::empty() by {
            assert(t.data@[k]@.len() == 0);
        }
        assert(t@.columns =~= Seq::new(n as nat, |c: int| Seq::<CellView>::empty()));
        t
    }

    /// Appends `row` without counting it as a change.
    fn push_row(&mut self, row: &Vec<CellValue>)
        requires
            table_ok(old(self)@),
        ensures
            table_ok(final(self)@),
            final(self)@.headers == old(self)@.headers,
            final(self)@.version == old(self)@.version,
            final(self)@.columns == append_row(old(self)@.columns, column_view(row@)),
    {
        let ghost old_cols = self@.columns;
        let ghost rv = column_view(row@);
        let n = self.data.len();
        let mut c: usize = 0;
        while c < n
            invariant
                c <= n,
                n == self.data@.len(),
                n == old_cols.len(),
                rv == column_view(row@),
                self@.headers == old(self)@.headers,
                self@.version == old(self)@.version,
                old_cols == old(self)@.columns,
                table_ok(old(self)@),
                forall|k: int| 0 <= k < c ==> #[trigger] self@.columns[k] == old_cols[k].push(padded(rv, k)),
                forall|k: int| c <= k < n ==> #[trigger] self@.columns[k] == old_cols[k],
            decreases n - c,
        {
            let v = if c < row.len() {
                row[c].copy()
            } else {
                CellValue::Empty
            };
            assert(v@ == padded(rv, c as int));
            let ghost before = self@.columns;
            let ghost before_data = self.data@;
            let ghost pushed = v;
            self.data[c].push(v);
            proof {
                assert(self.data@[c as int]@ == before_data[c as int]@.push(pushed));
                assert(before[c as int] == column_view(before_data[c as int]@));
                assert(self@.columns[c as int] == column_view(self.data@[c as int]@));
                assert(column_view(before_data[c as int]@.push(pushed)) =~= column_view(
                    before_data[c as int]@,
                ).push(pushed@));
                assert forall|k: int| 0 <= k < n && k != c implies #[trigger] self@.columns[k] == before[k] by {}
                assert(self@.columns[c as int] =~= old_cols[c as int].push(padded(rv, c as int)));
            }
            c = c + 1;
        }
        assert(self@.columns =~= append_row(old_cols, rv));
    }

    /// Adds a row; a short row is padded with empty cells and cells past the
    /// last column are dropped.
    pub fn add_row(&mut self, row: Vec<CellValue>)
        requires
            table_ok(old(self)@),
            old(self)@.version < u64::MAX,
        ensures
            table_ok(final(self)@),
            final(self)@.headers == old(self)@.headers,
            final(self)@.columns == append_row(old(self)@.columns, column_view(row@)),
            final(self)@.version == old(self)@.version + 1,
    {
        self.push_row(&row);
        self.version = self.version + 1;
    }

    /// A table with the given headers and rows.
    pub fn new(columns: Vec<String>, rows: Vec<Vec<CellValue>>) -> (t: Self)
        ensures
            table_ok(t@),
            t@.headers == strings_view(columns@),
            t@.columns == Seq::new(
                columns@.len(),
                |c: int| Seq::new(rows@.len(), |r: int| padded(rows_view(rows@)[r], c)),
            ),
            t@.version == 0,
    {
        let ncols = columns.len();
        let ghost hv = strings_view(columns@);
        let mut t = Self::with_columns(columns);
        let mut r: usize = 0;
        while r < rows.len()
            invariant
                r <= rows.len(),
                table_ok(t@),
                t@.version == 0,
                t@.headers == hv,
                t@.columns.len() == ncols,
                forall|c: int| 0 <= c < ncols ==> #[trigger] t@.columns[c] =~= Seq::new(
                    r as nat,
                    |k: int| padded(rows_view(rows@)[k], c),
                ),
            decreases rows.len() - r,
        {
            let ghost before = t@.columns;
            t.push_row(&rows[r]);
            proof {
                assert forall|c: int| 0 <= c < ncols implies #[trigger] t@.columns[c] =~= Seq::new(
                    (r + 1) as nat,
                    |k: int| padded(rows_view(rows@)[k], c),
                ) by {
                    assert(t@.columns[c] == before[c].push(padded(column_view(rows@[r as int]@), c)));
                }
            }
            r = r + 1;
        }
        assert(t@.columns =~= Seq::new(
            ncols as nat,
            |c: int| Seq::new(rows@.len(), |k: int| padded(rows_view(rows@)[k], c)),
        ));
        t
    }

    /// The column headers.
    pub fn columns(&self) -> (h: &[String])
        ensures
            strings_view(h@) == self@.headers,
    {
        self.headers.as_slice()
    }

    /// The number of rows.
    pub fn row_count(&self) -> (n: usize)
        ensures
            n == table_rows(self@),
    {
        if self.data.len() == 0 {
            0
        } else {
            self.data[0].len()
        }
    }

    /// The number of columns.
    pub fn column_count(&self) -> (n: usize)
        ensures
            n == self@.headers.len(),
    {
        self.headers.len()
    }

    /// The version count, which grows by one with each change.
    pub fn version(&self) -> (v: u64)
        ensures
            v == self@.version,
    {
        self.version
    }
}

impl VecDataSource {
    /// The cell at `row` in column `col`; the empty cell where there is none.
    pub fn cell_value(&self, row: usize, col: usize) -> (v: CellValue)
        ensures
            v@ == cell_at(self@, row as int, col as int),
    {
        if col < self.data.len() && row < self.data[col].len() {
            assert(self@.columns[col as int] == column_view(self.data@[col as int]@));
            self.data[col][row].copy()
        } else {
            CellValue::Empty
        }
    }

    /// The text of the cell at `row` in column `col`; empty where there is none.
    pub fn cell_text(&self, row: usize, col: usize) -> (s: String)
        ensures
            s@ == text_of(cell_at(self@, row as int, col as int)),
    {
        let v = self.cell_value(row, col);
        v.to_text()
    }

    /// Stores `value` at `row` in column `col` if that cell exists.
    pub fn set_cell(&mut self, row: usize, col: usize, value: CellValue) -> (ok: bool)
        requires
            table_ok(old(self)@),
            has_cell(old(self)@, row as int, col as int) ==> old(self)@.version < u64::MAX,
        ensures
            table_ok(final(self)@),
            ok == has_cell(old(self)@, row as int, col as int),
            ok ==> final(self)@ == (TableView {
                columns: old(self)@.columns.update(
                    col as int,
                    old(self)@.columns[col as int].update(row as int, value@),
                ),
                version: (old(self)@.version + 1) as u64,
                ..old(self)@
            }),
            !ok ==> final(self)@ == old(self)@,
    {
        if col < self.data.len() && row < self.data[col].len() {
            assert(self@.columns[col as int] == column_view(self.data@[col as int]@));
            let ghost before_data = self.data@;
            let ghost stored = value;
            self.data[col].set(row, value);
            self.version = self.version + 1;
            proof {
                assert(self.data@ =~= before_data.update(
                    col as int,
                    self.data@[col as int],
                ));
                assert(self.data@[col as int]@ =~= before_data[col as int]@.update(row as int, stored));
                assert(column_view(self.data@[col as int]@) =~= column_view(
                    before_data[col as int]@,
                ).update(row as int, stored@));
                assert(self@.columns =~= old(self)@.columns.update(
                    col as int,
                    old(self)@.columns[col as int].update(row as int, stored@),
                ));
            }
            true
        } else {
            false
        }
    }

    /// Appends a row of empty cells and returns its index.
    pub fn add_row_default(&mut self) -> (r: Option<usize>)
        requires
            table_ok(old(self)@),
            old(self)@.columns.len() > 0,
            old(self)@.version < u64::MAX,
        ensures
            table_ok(final(self)@),
            final(self)@.headers == old(self)@.headers,
            final(self)@.columns == append_row(old(self)@.columns, Seq::empty()),
            final(self)@.version == old(self)@.version + 1,
            r matches Some(i) && i == table_rows(old(self)@),
    {
        let empty: Vec<CellValue> = Vec::new();
        self.push_row(&empty);
        assert(column_view(empty@) =~= Seq::<CellView>::empty());
        self.version = self.version + 1;
        let n = self.row_count();
        assert(self@.columns[0] == old(self)@.columns[0].push(CellView::Empty));
        Some(n - 1)
    }

    /// Removes the row at `row` if there is one.
    pub fn delete_row(&mut self, row: usize) -> (ok: bool)
        requires
            table_ok(old(self)@),
            row < table_rows(old(self)@) ==> old(self)@.version < u64::MAX,
        ensures
            table_ok(final(self)@),
            ok == (row < table_rows(old(self)@)),
            ok ==> final(self)@ == (TableView {
                columns: Seq::new(
                    old(self)@.columns.len(),
                    |c: int| old(self)@.columns[c].remove(row as int),
                ),
                version: (old(self)@.version + 1) as u64,
                ..old(self)@
            }),
            !ok ==> final(self)@ == old(self)@,
    {
        if row >= self.row_count() {
            return false;
        }
        let ghost old_cols = self@.columns;
        let n = self.data.len();
        let mut c: usize = 0;
        while c < n
            invariant
                c <= n,
                n == self.data@.len(),
                n == old_cols.len(),
                n > 0,
                row < old_cols[0].len(),
                self@.headers == old(self)@.headers,
                self@.version == old(self)@.version,
                old_cols == old(self)@.columns,
                table_ok(old(self)@),
                forall|k: int| 0 <= k < c ==> #[trigger] self@.columns[k] == old_cols[k].remove(row as int),
                forall|k: int| c <= k < n ==> #[trigger] self@.columns[k] == old_cols[k],
            decreases n - c,
        {
            let ghost before = self@.columns;
            let ghost before_data = self.data@;
            assert(old_cols[c as int].len() == old_cols[0].len());
            assert(before[c as int] == column_view(before_data[c as int]@));
            let _removed = self.data[c].remove(row);
            proof {
                assert forall|k: int| 0 <= k < n && k != c implies #[trigger] self@.columns[k] == before[k] by {}
                assert(self@.columns[c as int] == column_view(self.data@[c as int]@));
                assert(column_view(self.data@[c as int]@) =~= column_view(before_data[c as int]@).remove(
                    row as int,
                ));
            }
            c = c + 1;
        }
        assert(self@.columns =~= Seq::new(
            old_cols.len(),
            |c: int| old_cols[c].remove(row as int),
        ));
        self.version = self.version + 1;
        true
    }
}

pub open spec fn index_view(idx: Seq<usize>) -> Seq<int> {
    idx.map_values(|x: usize| x as int)
}

/// The order in which to take the rows of `col` to sort it stably in
/// direction `dir` (an insertion sort on row indices).
fn sort_indices(col: &Vec<CellValue>, dir: SortDirection) -> (idx: Vec<usize>)
    ensures
        is_permutation(index_view(idx@), col@.len()),
        sorts_stably(index_view(idx@), column_view(col@), dir),
{
    let ghost cv = column_view(col@);
    let n = col.len();
    let mut idx: Vec<usize> = Vec::new();
    let mut k: usize = 0;
    while k < n
        invariant
            k <= n,
            n == col@.len(),
            cv == column_view(col@),
            idx@.len() == k,
            forall|i: int| 0 <= i < k ==> #[trigger] idx@[i] < k,
            forall|i: int, j: int| 0 <= i < j < k ==> idx@[i] != idx@[j],
            forall|i: int|
                0 <= i < k - 1 ==> #[trigger] in_order(cv, dir, idx@[i] as int, idx@[i + 1] as int),
        decreases n - k,
    {
        idx.push(k);
        let mut j: usize = k;
        while j > 0 && sort_order_exec(dir, &col[idx[j - 1]], &col[idx[j]]) == CellOrder::Greater
            invariant
                j <= k < n,
                n == col@.len(),
                cv == column_view(col@),
                idx@.len() == k + 1,
                idx@[j as int] == k,
                forall|i: int| 0 <= i <= k ==> #[trigger] idx@[i] <= k,
                forall|i: int, l: int| 0 <= i < l <= k ==> idx@[i] != idx@[l],
                forall|i: int|
                    0 <= i < k && i != j - 1 && i != j ==> #[trigger] in_order(
                        cv,
                        dir,
                        idx@[i] as int,
                        idx@[i + 1] as int,
                    ),
                j < k ==> sort_order(dir, cv[k as int], cv[idx@[j + 1] as int]) == CellOrder::Less,
                0 < j < k ==> in_order(cv, dir, idx@[j - 1] as int, idx@[j + 1] as int),
            decreases j,
        {
            let ghost s0 = idx@;
            let a = idx[j - 1];
            proof {
                lemma_sort_order_swap(dir, cv[a as int], cv[k as int]);
                if j >= 2 {
                    let i0: int = j - 2;
                    assert(in_order(cv, dir, idx@[i0] as int, idx@[i0 + 1] as int));
                }
            }
            idx.set(j - 1, k);
            idx.set(j, a);
            proof {
                assert forall|i: int|
                    0 <= i < k && i != j - 2 && i != j - 1 implies #[trigger] in_order(
                    cv,
                    dir,
                    idx@[i] as int,
                    idx@[i + 1] as int,
                ) by {
                    if i == j {
                        assert(idx@[i] == s0[j - 1]);
                        assert(idx@[i + 1] == s0[j + 1]);
                    } else {
                        assert(idx@[i] == s0[i]);
                        assert(idx@[i + 1] == s0[i + 1]);
                    }
                }
            }
            j = j - 1;
        }
        proof {
            if j > 0 {
                let p = idx@[j - 1];
                assert(p != k);
                lemma_sort_order_swap(dir, cv[p as int], cv[k as int]);
                assert(in_order(cv, dir, p as int, k as int));
            }
            if j < k {
                assert(in_order(cv, dir, k as int, idx@[j + 1] as int));
            }
            assert forall|i: int| 0 <= i < k implies #[trigger] in_order(
                cv,
                dir,
                idx@[i] as int,
                idx@[i + 1] as int,
            ) by {}
            assert forall|i: int| 0 <= i < k + 1 implies #[trigger] idx@[i] < k + 1 by {}
        }
        k = k + 1;
    }
    let ghost p = index_view(idx@);
    assert forall|i: int| 0 <= i < p.len() - 1 implies #[trigger] in_order(cv, dir, p[i], p[i + 1]) by {
        assert(in_order(cv, dir, idx@[i] as int, idx@[i + 1] as int));
    }
    idx
}

impl VecDataSource {
    /// Sorts the rows by column `col` in direction `dir`, stably; equal cells,
    /// and numbers without a common order, keep their relative order. Does
    /// nothing where there is no such column or no row.
    pub fn sort(&mut self, col: usize, dir: SortDirection)
        requires
            table_ok(old(self)@),
            col < old(self)@.columns.len() && table_rows(old(self)@) > 0 ==> old(self)@.version
                < u64::MAX,
        ensures
            table_ok(final(self)@),
            col >= old(self)@.columns.len() || table_rows(old(self)@) == 0 ==> final(self)@ == old(
                self,
            )@,
            col < old(self)@.columns.len() && table_rows(old(self)@) > 0 ==> {
                &&& final(self)@.headers == old(self)@.headers
                &&& final(self)@.version == old(self)@.version + 1
                &&& exists|p: Seq<int>|
                    {
                        &&& is_permutation(p, table_rows(old(self)@))
                        &&& sorts_stably(p, old(self)@.columns[col as int], dir)
                        &&& #[trigger] reorder(old(self)@.columns, p) == final(self)@.columns
                    }
            },
    {
        if col >= self.data.len() {
            return;
        }
        let n = self.row_count();
        if n == 0 {
            return;
        }
        let ghost old_cols = self@.columns;
        assert(old_cols[col as int] == column_view(self.data@[col as int]@));
        let idx = sort_indices(&self.data[col], dir);
        let ghost p = index_view(idx@);
        let ncols = self.data.len();
        let mut c: usize = 0;
        while c < ncols
            invariant
                c <= ncols,
                ncols == self.data@.len(),
                ncols == old_cols.len(),
                n == table_rows(old(self)@),
                n == idx@.len(),
                p == index_view(idx@),
                is_permutation(p, n as nat),
                self@.headers == old(self)@.headers,
                self@.version == old(self)@.version,
                old_cols == old(self)@.columns,
                table_ok(old(self)@),
                forall|k: int| 0 <= k < c ==> #[trigger] self@.columns[k] == Seq::new(
                    n as nat,
                    |i: int| old_cols[k][p[i]],
                ),
                forall|k: int| c <= k < ncols ==> #[trigger] self@.columns[k] == old_cols[k],
            decreases ncols - c,
        {
            let ghost before = self@.columns;
            assert(before[c as int] == column_view(self.data@[c as int]@));
            assert(old_cols[c as int].len() == n);
            let mut fresh: Vec<CellValue> = Vec::new();
            let mut i: usize = 0;
            while i < n
                invariant
                    i <= n,
                    n == idx@.len(),
                    p == index_view(idx@),
                    is_permutation(p, n as nat),
                    c < self.data@.len(),
                    column_view(self.data@[c as int]@) == old_cols[c as int],
                    old_cols[c as int].len() == n,
                    column_view(fresh@) =~= Seq::new(i as nat, |m: int| old_cols[c as int][p[m]]),
                decreases n - i,
            {
                let at = idx[i];
                assert(p[i as int] == at as int);
                let v = self.data[c][at].copy();
                let ghost f0 = fresh@;
                fresh.push(v);
                assert(column_view(fresh@) =~= column_view(f0).push(v@));
                i = i + 1;
            }
            let ghost before_data = self.data@;
            let ghost fv = column_view(fresh@);
            self.data.set(c, fresh);
            proof {
                assert forall|k: int| 0 <= k < ncols && k != c implies #[trigger] self@.columns[k]
                    == before[k] by {
                    assert(self.data@[k] == before_data[k]);
                }
                assert(self@.columns[c as int] == fv);
            }
            c = c + 1;
        }
        assert(self@.columns =~= reorder(old_cols, p));
        self.version = self.version + 1;
    }
}

/// A row appended to a table reads back: the table has one more row, and
/// the new last row holds the row's cells, padded with empty cells.
pub proof fn lemma_added_row_reads_back(t: TableView, row: Seq<CellView>, c: int)
    requires
        table_ok(t),
        t.columns.len() > 0,
        0 <= c < t.columns.len(),
    ensures
        table_ok(TableView { columns: append_row(t.columns, row), ..t }),
        table_rows(TableView { columns: append_row(t.columns, row), ..t }) == table_rows(t) + 1,
        cell_at(TableView { columns: append_row(t.columns, row), ..t }, table_rows(t) as int, c)
            == padded(row, c),
{
    let u = TableView { columns: append_row(t.columns, row), ..t };
    assert(t.columns[c].len() == table_rows(t));
    assert(u.columns[0].len() == t.columns[0].len() + 1);
    assert forall|k: int| 0 <= k < u.columns.len() implies #[trigger] u.columns[k].len()
        == table_rows(u) by {
        assert(t.columns[k].len() == table_rows(t));
    }
}

/// A cell that was set reads back, and every other cell is unchanged.
pub proof fn lemma_set_cell_reads_back(t: TableView, row: int, col: int, v: CellView, r: int, c: int)
    requires
        table_ok(t),
        has_cell(t, row, col),
    ensures
        cell_at(
            TableView { columns: t.columns.update(col, t.columns[col].update(row, v)), ..t },
            r,
            c,
        ) == if r == row && c == col {
            v
        } else {
            cell_at(t, r, c)
        },
{
}

/// Sorting keeps every row whole: each row of the sorted table is a row of
/// the table before, and each row before is found once after.
pub proof fn lemma_sort_keeps_rows(cols: Seq<Seq<CellView>>, p: Seq<int>, n: nat, i: int)
    requires
        is_permutation(p, n),
        forall|c: int| 0 <= c < cols.len() ==> #[trigger] cols[c].len() == n,
        0 <= i < n,
    ensures
        exists|j: int|
            #![trigger p[j]]
            0 <= j < n && p[j] == i && forall|c: int|
                0 <= c < cols.len() ==> #[trigger] reorder(cols, p)[c][j] == cols[c][i],
{
    lemma_permutation_onto(p, n, i);
    let j = choose|j: int| 0 <= j < n && p[j] == i;
    assert forall|c: int| 0 <= c < cols.len() implies #[trigger] reorder(cols, p)[c][j]
        == cols[c][i] by {}
}

/// Every index below `n` occurs in a permutation of the indices below `n`.
pub proof fn lemma_permutation_onto(p: Seq<int>, n: nat, i: int)
    requires
        is_permutation(p, n),
        0 <= i < n,
    ensures
        exists|j: int| 0 <= j < n && p[j] == i,
{
    let s = Set::new(|x: int| 0 <= x < n);
    let img = Set::new(|x: int| exists|j: int| 0 <= j < n && p[j] == x);
    if !img.contains(i) {
        // The `n` entries of `p` take their values among the `n - 1` indices
        // other than `i`, so two of them would be equal.
        let rest = s.remove(i);
        assert(rest =~= Set::new(|x: int| 0 <= x < n && x != i));
        lemma_range_len(n);
        assert(rest.len() == n - 1) by {
            assert(s.contains(i));
        }
        let q = Seq::new(n, |k: int| p[k]);
        assert forall|k: int| 0 <= k < n implies rest.contains(#[trigger] q[k]) by {
            assert(img.contains(p[k]));
        }
        lemma_injective_into(q, rest);
    }
}

proof fn lemma_range_len(n: nat)
    ensures
        Set::new(|x: int| 0 <= x < n).finite(),
        Set::new(|x: int| 0 <= x < n).len() == n,
    decreases n,
{
    if n == 0 {
        assert(Set::new(|x: int| 0 <= x < n) =~= Set::<int>::empty());
    } else {
        lemma_range_len((n - 1) as nat);
        assert(Set::new(|x: int| 0 <= x < n) =~= Set::new(|x: int| 0 <= x < n - 1).insert(
            n - 1,
        ));
    }
}

/// A sequence with distinct entries, all in a finite set, is no longer than
/// the set; so `q` cannot have more distinct entries than `set` holds.
proof fn lemma_injective_into(q: Seq<int>, set: Set<int>)
    requires
        set.finite(),
        forall|k: int| 0 <= k < q.len() ==> set.contains(#[trigger] q[k]),
        forall|a: int, b: int| 0 <= a < b < q.len() ==> q[a] != q[b],
    ensures
        q.len() <= set.len(),
    decreases q.len(),
{
    if q.len() > 0 {
        let last = q.last();
        let front = q.drop_last();
        assert forall|k: int| 0 <= k < front.len() implies set.remove(last).contains(
            #[trigger] front[k],
        ) by {
            assert(q[k] != q[q.len() - 1]);
        }
        lemma_injective_into(front, set.remove(last));
        assert(set.contains(q[q.len() - 1]));
    }
}

/// The integer in an integer cell.
pub open spec fn int_value(c: CellView) -> int {
    match c {
        CellView::Integer(i) => i as int,
        _ => 0,
    }
}

/// A column of integers, sorted ascending, holds them in non-decreasing
/// order (and, descending, in non-increasing order).
pub proof fn lemma_sorted_integers(col: Seq<CellView>, p: Seq<int>, dir: SortDirection, a: int, b: int)
    requires
        is_permutation(p, col.len()),
        sorts_stably(p, col, dir),
        forall|i: int| 0 <= i < col.len() ==> #[trigger] col[i] is Integer,
        0 <= a <= b < col.len(),
    ensures
        dir == SortDirection::Ascending ==> int_value(col[p[a]]) <= int_value(col[p[b]]),
        dir == SortDirection::Descending ==> int_value(col[p[a]]) >= int_value(col[p[b]]),
    decreases b - a,
{
    if a < b {
        lemma_sorted_integers(col, p, dir, a, b - 1);
        assert(in_order(col, dir, p[b - 1], p[(b - 1) + 1]));
        assert(col[p[b - 1]] is Integer);
        assert(col[p[b]] is Integer);
    }
}

/// Deleting the row just added gives back the columns as they were.
pub proof fn lemma_delete_undoes_add(t: TableView, row: Seq<CellView>)
    requires
        table_ok(t),
    ensures
        Seq::new(
            t.columns.len(),
            |c: int| append_row(t.columns, row)[c].remove(table_rows(t) as int),
        ) == t.columns,
{
    let u = Seq::new(
        t.columns.len(),
        |c: int| append_row(t.columns, row)[c].remove(table_rows(t) as int),
    );
    assert forall|c: int| 0 <= c < t.columns.len() implies #[trigger] u[c] == t.columns[c] by {
        assert(t.columns[c].len() == table_rows(t));
        assert(t.columns[c].push(padded(row, c)).remove(table_rows(t) as int) =~= t.columns[c]);
    }
    assert(u =~= t.columns);
}

/// A provider of tabular data for data-driven widgets. A source presents a
/// table; reading gives its size, version and cells, and a source may also
/// support sorting and editing. Where it does not, the provided methods
/// leave it unchanged and report that nothing was done.
pub trait DataSource {
    /// The table the source presents.
    spec fn source_view(&self) -> TableView;

    /// The source is in a state its methods work from.
    spec fn source_ok(&self) -> bool;

    /// Sorting by column `col` may proceed.
    spec fn can_sort(&self, col: usize) -> bool;

    /// Setting the cell at `row` in column `col` may proceed.
    spec fn can_set(&self, row: usize, col: usize) -> bool;

    /// Adding a row of empty cells may proceed.
    spec fn can_add_row(&self) -> bool;

    /// Deleting row `row` may proceed.
    spec fn can_delete(&self, row: usize) -> bool;

    /// The number of rows.
    fn row_count(&self) -> (n: usize)
        requires
            self.source_ok(),
        ensures
            n == table_rows(self.source_view()),
    ;

    /// The number of columns.
    fn column_count(&self) -> (n: usize)
        requires
            self.source_ok(),
        ensures
            n == self.source_view().headers.len(),
    ;

    /// A number that changes whenever the data changes.
    fn version(&self) -> (v: u64)
        requires
            self.source_ok(),
        ensures
            v == self.source_view().version,
    ;

    /// The text of the cell at `row` in column `col`.
    fn cell_text(&self, row: usize, col: usize) -> (s: String)
        requires
            self.source_ok(),
        ensures
            s@ == text_of(cell_at(self.source_view(), row as int, col as int)),
    ;

    /// The cell at `row` in column `col`, for sorting and comparing; its text
    /// is the cell's text. Unless the source says more, the cell is that text.
    fn cell_value(&self, row: usize, col: usize) -> (v: CellValue)
        requires
            self.source_ok(),
        ensures
            text_of(v@) == text_of(cell_at(self.source_view(), row as int, col as int)),
        default_ensures
            v@ == CellView::Text(text_of(cell_at(self.source_view(), row as int, col as int))),
    {
        CellValue::Text(self.cell_text(row, col))
    }

    /// Sorts the rows by column `col`; the headers and the number of rows
    /// stay. Unless the source sorts, nothing changes.
    fn sort(&mut self, col: usize, direction: SortDirection)
        requires
            old(self).source_ok(),
            old(self).can_sort(col),
        ensures
            final(self).source_ok(),
            final(self).source_view().headers == old(self).source_view().headers,
            table_rows(final(self).source_view()) == table_rows(old(self).source_view()),
        default_ensures
            final(self).source_view() == old(self).source_view(),
    {
    }

    /// Stores `value` at `row` in column `col`; true when it was stored, and
    /// the table unchanged otherwise. Unless the source supports it, nothing
    /// is stored.
    fn set_cell(&mut self, row: usize, col: usize, value: CellValue) -> (ok: bool)
        requires
            old(self).source_ok(),
            old(self).can_set(row, col),
        ensures
            final(self).source_ok(),
            ok ==> cell_at(final(self).source_view(), row as int, col as int) == value@,
            !ok ==> final(self).source_view() == old(self).source_view(),
        default_ensures
            !ok,
    {
        false
    }

    /// Adds a row of empty cells and gives its index, or changes nothing and
    /// gives `None`. Unless the source supports it, nothing is added.
    fn add_row_default(&mut self) -> (r: Option<usize>)
        requires
            old(self).source_ok(),
            old(self).can_add_row(),
        ensures
            final(self).source_ok(),
            r matches Some(i) ==> i == table_rows(old(self).source_view()) && table_rows(
                final(self).source_view(),
            ) == i + 1,
            r is None ==> final(self).source_view() == old(self).source_view(),
        default_ensures
            r is None,
    {
        None
    }

    /// Deletes row `row`; true when it was deleted, and the table unchanged
    /// otherwise. Unless the source supports it, nothing is deleted.
    fn delete_row(&mut self, row: usize) -> (ok: bool)
        requires
            old(self).source_ok(),
            old(self).can_delete(row),
        ensures
            final(self).source_ok(),
            ok ==> table_rows(final(self).source_view()) == table_rows(old(self).source_view()) - 1,
            !ok ==> final(self).source_view() == old(self).source_view(),
        default_ensures
            !ok,
    {
        false
    }
}

impl DataSource for VecDataSource {
    open spec fn source_view(&self) -> TableView {
        self@
    }

    open spec fn source_ok(&self) -> bool {
        table_ok(self@)
    }

    open spec fn can_sort(&self, col: usize) -> bool {
        col < self@.columns.len() && table_rows(self@) > 0 ==> self@.version < u64::MAX
    }

    open spec fn can_set(&self, row: usize, col: usize) -> bool {
        has_cell(self@, row as int, col as int) ==> self@.version < u64::MAX
    }

    open spec fn can_add_row(&self) -> bool {
        self@.columns.len() > 0 && self@.version < u64::MAX
    }

    open spec fn can_delete(&self, row: usize) -> bool {
        row < table_rows(self@) ==> self@.version < u64::MAX
    }

    fn row_count(&self) -> (n: usize) {
        VecDataSource::row_count(self)
    }

    fn column_count(&self) -> (n: usize) {
        VecDataSource::column_count(self)
    }

    fn version(&self) -> (v: u64) {
        VecDataSource::version(self)
    }

    fn cell_text(&self, row: usize, col: usize) -> (s: String) {
        VecDataSource::cell_text(self, row, col)
    }

    fn cell_value(&self, row: usize, col: usize) -> (v: CellValue)
        ensures
            v@ == cell_at(self@, row as int, col as int),
    {
        VecDataSource::cell_value(self, row, col)
    }

    fn sort(&mut self, col: usize, direction: SortDirection) {
        VecDataSource::sort(self, col, direction);
        proof {
            if col < old(self)@.columns.len() && table_rows(old(self)@) > 0 {
                let p = choose|p: Seq<int>|
                    {
                        &&& is_permutation(p, table_rows(old(self)@))
                        &&& sorts_stably(p, old(self)@.columns[col as int], direction)
                        &&& #[trigger] reorder(old(self)@.columns, p) == self@.columns
                    };
                assert(self@.columns[0].len() == p.len());
            }
        }
    }

    fn set_cell(&mut self, row: usize, col: usize, value: CellValue) -> (ok: bool) {
        VecDataSource::set_cell(self, row, col, value)
    }

    fn add_row_default(&mut self) -> (r: Option<usize>) {
        let r = VecDataSource::add_row_default(self);
        assert(old(self)@.columns.len() > 0);
        assert(self@.columns[0] == old(self)@.columns[0].push(padded(Seq::empty(), 0)));
        r
    }

    fn delete_row(&mut self, row: usize) -> (ok: bool) {
        let ok = VecDataSource::delete_row(self, row);
        proof {
            if ok {
                assert(self@.columns[0] == old(self)@.columns[0].remove(row as int));
            }
        }
        ok
    }
}

/// No id occurs twice.
pub open spec fn ids_distinct(ids: Seq<Seq<char>>) -> bool {
    forall|i: int, j: int| 0 <= i < j < ids.len() ==> ids[i] != ids[j]
}

/// The position of `id` among `ids`.
pub open spec fn id_index(ids: Seq<Seq<char>>, id: Seq<char>) -> int {
    choose|i: int| 0 <= i < ids.len() && ids[i] == id
}

/// The sources by id: each id maps to the source at its position.
pub open spec fn provider_map<S>(ids: Seq<Seq<char>>, sources: Seq<S>) -> Map<Seq<char>, S> {
    Map::new(|id: Seq<char>| ids.contains(id), |id: Seq<char>| sources[id_index(ids, id)])
}

proof fn lemma_id_index(ids: Seq<Seq<char>>, i: int)
    requires
        ids_distinct(ids),
        0 <= i < ids.len(),
    ensures
        id_index(ids, ids[i]) == i,
{
    let j = id_index(ids, ids[i]);
    assert(0 <= j < ids.len() && ids[j] == ids[i]);
    if j < i {
        assert(ids[j] != ids[i]);
    } else if i < j {
        assert(ids[i] != ids[j]);
    }
}

/// Data sources registered under ids.
pub struct MapDataProvider<S> {
    ids: Vec<String>,
    sources: Vec<S>,
}

impl<S> MapDataProvider<S> {
    /// The registered ids, in the order they were first registered.
    pub closed spec fn id_list(&self) -> Seq<Seq<char>> {
        strings_view(self.ids@)
    }

    pub closed spec fn source_list(&self) -> Seq<S> {
        self.sources@
    }

    /// The ids and sources pair up, and no id occurs twice.
    pub closed spec fn wf(&self) -> bool {
        &&& self.ids@.len() == self.sources@.len()
        &&& ids_distinct(self.id_list())
    }
}

impl<S> View for MapDataProvider<S> {
    type V = Map<Seq<char>, S>;

    closed spec fn view(&self) -> Map<Seq<char>, S> {
        provider_map(self.id_list(), self.source_list())
    }
}

impl<S> MapDataProvider<S> {
    /// A provider with no sources.
    pub fn new() -> (p: Self)
        ensures
            p.wf(),
            p@ == Map::<Seq<char>, S>::empty(),
    {
        let p = MapDataProvider { ids: Vec::new(), sources: Vec::new() };
        assert(p@ =~= Map::<Seq<char>, S>::empty());
        p
    }

    fn position(&self, id: &Vec<char>) -> (r: Option<usize>)
        requires
            self.wf(),
        ensures
            match r {
                Some(i) => i < self.id_list().len() && self.id_list()[i as int] == id@,
                None => !self.id_list().contains(id@),
            },
    {
        let n = self.ids.len();
        let mut i: usize = 0;
        while i < n
            invariant
                i <= n,
                n == self.ids@.len(),
                forall|k: int| 0 <= k < i ==> self.id_list()[k] != id@,
            decreases n - i,
        {
            let a = str_to_chars(self.ids[i].as_str());
            if chars_equal(&a, id) {
                return Some(i);
            }
            i = i + 1;
        }
        None
    }

    /// Registers `source` under `id`, replacing the source registered under
    /// it before.
    pub fn register(&mut self, id: String, source: S)
        requires
            old(self).wf(),
        ensures
            final(self).wf(),
            final(self)@ == old(self)@.insert(id@, source),
    {
        let key = str_to_chars(id.as_str());
        match self.position(&key) {
            Some(i) => {
                self.sources.set(i, source);
                proof {
                    let ids = self.id_list();
                    lemma_id_index(ids, i as int);
                    assert forall|k: Seq<char>| ids.contains(k) && k != id@ implies id_index(
                        ids,
                        k,
                    ) != i as int by {
                        let j = id_index(ids, k);
                        assert(ids[j] == k);
                    }
                    assert(self@ =~= old(self)@.insert(id@, source));
                }
            },
            None => {
                let ghost old_ids = self.id_list();
                self.ids.push(id);
                self.sources.push(source);
                proof {
                    let ids = self.id_list();
                    assert(ids =~= old_ids.push(id@));
                    let n = old_ids.len() as int;
                    assert(ids[n] == id@);
                    assert forall|a: int, b: int| 0 <= a < b < ids.len() implies ids[a] != ids[b] by {
                        if b < n {
                            assert(old_ids[a] != old_ids[b]);
                        } else {
                            assert(old_ids[a] == ids[a]);
                        }
                    }
                    lemma_id_index(ids, n);
                    assert forall|k: Seq<char>| old_ids.contains(k) implies id_index(ids, k)
                        == id_index(old_ids, k) by {
                        let j = id_index(old_ids, k);
                        assert(old_ids[j] == k && ids[j] == k);
                        lemma_id_index(ids, j);
                    }
                    assert forall|k: Seq<char>| ids.contains(k) <==> (old_ids.contains(k) || k == id@) by {
                        if ids.contains(k) {
                            let j = choose|j: int| 0 <= j < ids.len() && ids[j] == k;
                            if j < n {
                                assert(old_ids[j] == k);
                            }
                        }
                        if old_ids.contains(k) {
                            let j = choose|j: int| 0 <= j < old_ids.len() && old_ids[j] == k;
                            assert(ids[j] == k);
                        }
                    }
                    assert(self@ =~= old(self)@.insert(id@, source));
                }
            },
        }
    }

    /// The source registered under `id`.
    pub fn get_source(&self, id: &str) -> (r: Option<&S>)
        requires
            self.wf(),
        ensures
            match r {
                Some(s) => self@.contains_key(id@) && *s == self@[id@],
                None => !self@.contains_key(id@),
            },
    {
        let key = str_to_chars(id);
        match self.position(&key) {
            Some(i) => {
                proof {
                    lemma_id_index(self.id_list(), i as int);
                }
                Some(&self.sources[i])
            },
            None => None,
        }
    }

    /// The source registered under `id`, to be changed in place: what it
    /// holds when the borrow ends is what the provider then holds under `id`.
    pub fn get_source_mut(&mut self, id: &str) -> (r: Option<&mut S>)
        requires
            old(self).wf(),
        ensures
            match r {
                Some(s) => {
                    &&& old(self)@.contains_key(id@)
                    &&& *s == old(self)@[id@]
                    &&& final(self).wf()
                    &&& final(self)@ == old(self)@.insert(id@, *final(s))
                },
                None => !old(self)@.contains_key(id@) && *final(self) == *old(self),
            },
    {
        let key = str_to_chars(id);
        match self.position(&key) {
            Some(i) => {
                proof {
                    lemma_id_index(self.id_list(), i as int);
                }
                Some(&mut self.sources[i])
            },
            None => None,
        }
    }
}


impl<S> Default for MapDataProvider<S> {
    fn default() -> (p: Self)
        ensures
            p.wf(),
            p@ == Map::<Seq<char>, S>::empty(),
    {
        MapDataProvider::new()
    }
}

/// A source registered under an id is the one found under that id, and the
/// sources under other ids stay as they were.
pub proof fn lemma_registered_source_found<S>(
    before: Map<Seq<char>, S>,
    after: Map<Seq<char>, S>,
    id: Seq<char>,
    source: S,
    other: Seq<char>,
)
    requires
        after == before.insert(id, source),
    ensures
        after.contains_key(id) && after[id] == source,
        other != id ==> (after.contains_key(other) == before.contains_key(other)),
        other != id && before.contains_key(other) ==> after[other] == before[other],
{
}

} // verus!
