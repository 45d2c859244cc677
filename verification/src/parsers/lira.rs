//! Text schemes of LIRA: blocks `( <id>/ ... )` whose rows end in a slash.
use vstd::prelude::*;
use vstd::slice::slice_subrange;
use vstd::string::StringExecFns;
use crate::input::{ElementData, MeshData, NodeMap, Point};
use crate::scalar::Scalar;
use crate::text::{decimal, decimals_denote_their_number, value_of, with_number};

verus! {

pub struct LiraParser;

/// Why a scheme cannot be read. Rows are counted from one.
#[derive(Debug, Clone, Copy, PartialEq, Eq, Structural)]
pub enum LiraError {
    NoNodes,
    NoElements,
    BadNode(usize),
    BadElement(usize),
    UnknownNode(usize),
}

impl LiraError {
    pub open spec fn text(self) -> Seq<char> {
        match self {
            LiraError::NoNodes => "Блок координат узлов (4/) не найден"@,
            LiraError::NoElements => "Блок элементов (1/) не найден"@,
            LiraError::BadNode(row) => "Узел "@ + decimal(row as nat)
                + ": ожидаются три конечные координаты"@,
            LiraError::BadElement(row) => "КЭ "@ + decimal(row as nat)
                + ": неверная запись типа, жесткости или узлов"@,
            LiraError::UnknownNode(row) => "КЭ "@ + decimal(row as nat)
                + ": ссылка на отсутствующий узел"@,
        }
    }

    pub fn message(&self) -> (r: String)
        ensures
            r@ == self.text(),
    {
        match self {
            LiraError::NoNodes => "Блок координат узлов (4/) не найден".to_string(),
            LiraError::NoElements => "Блок элементов (1/) не найден".to_string(),
            LiraError::BadNode(row) => {
                let mut text = with_number("Узел ", *row);
                text.append(": ожидаются три конечные координаты");
                text
            },
            LiraError::BadElement(row) => {
                let mut text = with_number("КЭ ", *row);
                text.append(": неверная запись типа, жесткости или узлов");
                text
            },
            LiraError::UnknownNode(row) => {
                let mut text = with_number("КЭ ", *row);
                text.append(": ссылка на отсутствующий узел");
                text
            },
        }
    }
}

pub open spec fn blank(b: u8) -> bool {
    b == 32 || b == 9 || b == 13 || b == 10
}

fn is_blank(b: u8) -> (r: bool)
    ensures
        r == blank(b),
{
    b == 32 || b == 9 || b == 13 || b == 10
}

/// The first byte from `from` on that is not blank.
pub open spec fn skip(content: Seq<u8>, from: int) -> int
    decreases content.len() - from,
{
    if 0 <= from < content.len() && blank(content[from]) {
        skip(content, from + 1)
    } else {
        from
    }
}

fn skip_blanks(content: &[u8], from: usize) -> (r: usize)
    requires
        from <= content@.len(),
    ensures
        r == skip(content@, from as int),
        from <= r <= content@.len(),
{
    let mut i: usize = from;
    while i < content.len() && is_blank(content[i])
        invariant
            from <= i <= content@.len(),
            skip(content@, i as int) == skip(content@, from as int),
        decreases content@.len() - i,
    {
        i += 1;
    }
    i
}

/// Where the closing bracket stands that brings the depth to zero.
pub open spec fn closing(content: Seq<u8>, from: int, depth: int) -> Option<int>
    decreases content.len() - from,
{
    if !(0 <= from < content.len()) {
        None
    } else if content[from] == 40 {
        closing(content, from + 1, depth + 1)
    } else if content[from] == 41 {
        if depth == 1 {
            Some(from)
        } else {
            closing(content, from + 1, depth - 1)
        }
    } else {
        closing(content, from + 1, depth)
    }
}

fn find_closing(content: &[u8], from: usize) -> (r: Option<usize>)
    requires
        0 < from <= content@.len(),
    ensures
        match r {
            Some(end) => closing(content@, from as int, 1) == Some(end as int) && from <= end
                < content@.len(),
            None => closing(content@, from as int, 1) is None,
        },
{
    let mut depth: usize = 1;
    let mut i: usize = from;
    while i < content.len()
        invariant
            0 < from <= i <= content@.len(),
            1 <= depth <= 1 + i - from,
            closing(content@, i as int, depth as int) == closing(content@, from as int, 1),
        decreases content@.len() - i,
    {
        if content[i] == 40 {
            depth += 1;
        } else if content[i] == 41 {
            if depth == 1 {
                return Some(i);
            }
            depth -= 1;
        }
        i += 1;
    }
    None
}

/// The name of the block of nodes: `4`.
pub open spec fn node_block() -> Seq<u8> {
    seq![52u8]
}

/// The name of the block of elements: `1`.
pub open spec fn element_block() -> Seq<u8> {
    seq![49u8]
}

/// Where the rows of a block begin whose bracket stands at `i`.
pub open spec fn opening(content: Seq<u8>, i: int, id: Seq<u8>) -> Option<int> {
    let j = skip(content, i + 1);
    let k = skip(content, j + id.len());
    if content[i] == 40 && j + id.len() < content.len() && content.subrange(j, j + id.len()) == id && k < content.len()
        && content[k] == 47 {
        Some(k + 1)
    } else {
        None
    }
}

pub open spec fn block_from(content: Seq<u8>, i: int, id: Seq<u8>) -> Option<Seq<u8>> {
    match opening(content, i, id) {
        Some(start) => match closing(content, start, 1) {
            Some(end) => Some(content.subrange(start, end)),
            None => None,
        },
        None => None,
    }
}

/// The first block of that number from `i` on.
pub open spec fn block(content: Seq<u8>, i: int, id: Seq<u8>) -> Option<Seq<u8>>
    decreases content.len() - i,
{
    if !(0 <= i < content.len()) {
        None
    } else if block_from(content, i, id) is Some {
        block_from(content, i, id)
    } else {
        block(content, i + 1, id)
    }
}

/// What parts a text: slashes part rows, blanks part words.
pub open spec fn parts(b: u8, rows: bool) -> bool {
    if rows {
        b == 47
    } else {
        blank(b)
    }
}

pub open spec fn all_blank(piece: Seq<u8>) -> bool {
    forall|i: int| 0 <= i < piece.len() ==> blank(#[trigger] piece[i])
}

/// A row counts where it is not blank, a word where it is not empty.
pub open spec fn counts(piece: Seq<u8>, rows: bool) -> bool {
    if rows {
        !all_blank(piece)
    } else {
        piece.len() > 0
    }
}

/// Where the piece begins that holds the bytes before `upto`.
pub open spec fn piece_start(text: Seq<u8>, rows: bool, upto: int) -> int
    decreases upto,
{
    if upto <= 0 {
        0
    } else if parts(text[upto - 1], rows) {
        upto
    } else {
        piece_start(text, rows, upto - 1)
    }
}

pub open spec fn with_piece(list: Seq<Seq<u8>>, piece: Seq<u8>, rows: bool) -> Seq<Seq<u8>> {
    if counts(piece, rows) {
        list.push(piece)
    } else {
        list
    }
}

/// The pieces that end before `upto`.
pub open spec fn ended(text: Seq<u8>, rows: bool, upto: int) -> Seq<Seq<u8>>
    decreases upto,
{
    if upto <= 0 {
        Seq::empty()
    } else if parts(text[upto - 1], rows) {
        with_piece(
            ended(text, rows, upto - 1),
            text.subrange(piece_start(text, rows, upto - 1), upto - 1),
            rows,
        )
    } else {
        ended(text, rows, upto - 1)
    }
}

pub open spec fn pieces(text: Seq<u8>, rows: bool) -> Seq<Seq<u8>> {
    with_piece(
        ended(text, rows, text.len() as int),
        text.subrange(piece_start(text, rows, text.len() as int), text.len() as int),
        rows,
    )
}

pub open spec fn rows_of(text: Seq<u8>) -> Seq<Seq<u8>> {
    pieces(text, true)
}

pub open spec fn words_of(text: Seq<u8>) -> Seq<Seq<u8>> {
    pieces(text, false)
}

spec fn at_places(text: Seq<u8>, places: Seq<(usize, usize)>) -> Seq<Seq<u8>> {
    Seq::new(places.len(), |k: int| text.subrange(places[k].0 as int, places[k].1 as int))
}

spec fn places_in(text: Seq<u8>, places: Seq<(usize, usize)>) -> bool {
    forall|k: int|
        0 <= k < places.len() ==> (#[trigger] places[k]).0 <= places[k].1 <= text.len()
}

fn is_all_blank(text: &[u8], start: usize, end: usize) -> (r: bool)
    requires
        start <= end <= text@.len(),
    ensures
        r == all_blank(text@.subrange(start as int, end as int)),
{
    let ghost piece = text@.subrange(start as int, end as int);
    let mut i: usize = start;
    while i < end
        invariant
            start <= i <= end <= text@.len(),
            piece == text@.subrange(start as int, end as int),
            forall|k: int| 0 <= k < i - start ==> blank(#[trigger] piece[k]),
        decreases end - i,
    {
        if !is_blank(text[i]) {
            assert(piece[i - start] == text@[i as int]);
            return false;
        }
        assert(piece[i - start] == text@[i as int]);
        i += 1;
    }
    true
}

fn piece_counts(text: &[u8], start: usize, end: usize, rows: bool) -> (r: bool)
    requires
        start <= end <= text@.len(),
    ensures
        r == counts(text@.subrange(start as int, end as int), rows),
{
    if rows {
        !is_all_blank(text, start, end)
    } else {
        start < end
    }
}

#[verifier::loop_isolation(false)]
fn split(text: &[u8], rows: bool) -> (r: Vec<(usize, usize)>)
    ensures
        places_in(text@, r@),
        at_places(text@, r@) == pieces(text@, rows),
        r@.len() <= text@.len(),
{
    let mut r: Vec<(usize, usize)> = Vec::new();
    let mut start: usize = 0;
    let mut i: usize = 0;
    assert(at_places(text@, r@) =~= Seq::<Seq<u8>>::empty());
    while i < text.len()
        invariant
            start <= i <= text@.len(),
            start == piece_start(text@, rows, i as int),
            places_in(text@, r@),
            at_places(text@, r@) == ended(text@, rows, i as int),
            r@.len() <= start,
        decreases text@.len() - i,
    {
        let divides: bool = if rows {
            text[i] == 47
        } else {
            is_blank(text[i])
        };
        if divides {
            if piece_counts(text, start, i, rows) {
                let ghost before = r@;
                r.push((start, i));
                assert(at_places(text@, r@) =~= at_places(text@, before).push(text@.subrange(start as int, i as int)));
            }
            start = i + 1;
        }
        i += 1;
    }
    if piece_counts(text, start, text.len(), rows) {
        let ghost before = r@;
        r.push((start, text.len()));
        assert(at_places(text@, r@) =~= at_places(text@, before).push(text@.subrange(start as int, text@.len() as int)));
        assert(text@.subrange(start as int, text@.len() as int).len() > 0);
    }
    r
}

/// The bit pattern of the number that a text denotes, where it denotes one.
pub uninterp spec fn coordinate_bits(word: Seq<u8>) -> Option<u64>;

/// `fast_float::parse`: the double-precision number that the whole text denotes,
/// or an error. The result depends on the text alone. `glam` settles which of the
/// two number types is meant.
#[verifier::external_body]
fn read_coordinate(word: &[u8]) -> (r: Option<u64>)
    ensures
        r == coordinate_bits(word@),
{
    match fast_float::parse(word) {
        Ok(value) => Some(glam::DVec3::splat(value).x.to_bits()),
        Err(_) => None,
    }
}

/// What is read for a coordinate, finite or not at all.
pub open spec fn finite_coordinate(bits: Option<u64>) -> Option<Scalar> {
    match bits {
        Some(pattern) => if (Scalar { bits: pattern }).finite() {
            Some(Scalar { bits: pattern })
        } else {
            None
        },
        None => None,
    }
}

pub fn checked_coordinate(bits: Option<u64>) -> (r: Option<Scalar>)
    ensures
        r == finite_coordinate(bits),
{
    match bits {
        Some(pattern) => {
            let value = Scalar { bits: pattern };
            if value.is_finite() {
                Some(value)
            } else {
                None
            }
        },
        None => None,
    }
}

pub open spec fn coordinate(word: Seq<u8>) -> Option<Scalar> {
    finite_coordinate(coordinate_bits(word))
}

/// Three finite coordinates.
pub open spec fn point_of_row(row: Seq<u8>) -> Option<Point> {
    let words = words_of(row);
    if words.len() != 3 {
        None
    } else {
        match (coordinate(words[0]), coordinate(words[1]), coordinate(words[2])) {
            (Some(x), Some(y), Some(z)) => Some([x, y, z]),
            _ => None,
        }
    }
}

fn read_point(row: &[u8]) -> (r: Option<Point>)
    ensures
        r == point_of_row(row@),
{
    let words = split(row, false);
    assert(at_places(row@, words@) == words_of(row@));
    if words.len() != 3 {
        return None;
    }
    let mut values: [Scalar; 3] = [Scalar::zero(), Scalar::zero(), Scalar::zero()];
    let mut j: usize = 0;
    while j < 3
        invariant
            j <= 3,
            words@.len() == 3,
            places_in(row@, words@),
            at_places(row@, words@) == words_of(row@),
            forall|k: int| 0 <= k < j ==> coordinate(words_of(row@)[k]) == Some(#[trigger] values@[k]),
        decreases 3 - j,
    {
        let place = words[j];
        let word = slice_subrange(row, place.0, place.1);
        assert(word@ == words_of(row@)[j as int]) by {
            assert(at_places(row@, words@)[j as int] == row@.subrange(place.0 as int, place.1 as int));
        }
        match checked_coordinate(read_coordinate(word)) {
            Some(value) => {
                values[j] = value;
            },
            None => {
                assert(coordinate(words_of(row@)[j as int]) is None);
                return None;
            },
        }
        j += 1;
    }
    assert(coordinate(words_of(row@)[0]) == Some(values@[0]));
    assert(coordinate(words_of(row@)[1]) == Some(values@[1]));
    assert(coordinate(words_of(row@)[2]) == Some(values@[2]));
    let point: Point = [values[0], values[1], values[2]];
    Some(point)
}

pub open spec fn node_fault(rows: Seq<Seq<u8>>, i: int) -> bool {
    point_of_row(rows[i]) is None
}

pub open spec fn first_node_fault(rows: Seq<Seq<u8>>, i: int) -> bool {
    &&& 0 <= i < rows.len()
    &&& node_fault(rows, i)
    &&& forall|k: int| 0 <= k < i ==> !#[trigger] node_fault(rows, k)
}

pub open spec fn nodes_good(rows: Seq<Seq<u8>>) -> bool {
    forall|k: int| 0 <= k < rows.len() ==> !#[trigger] node_fault(rows, k)
}

/// The nodes of the first rows, numbered from one.
pub open spec fn nodes_of(rows: Seq<Seq<u8>>, upto: int) -> Map<u32, Point>
    decreases upto,
{
    if upto <= 0 {
        Map::empty()
    } else {
        nodes_of(rows, upto - 1).insert(upto as u32, point_of_row(rows[upto - 1])->0)
    }
}

#[verifier::loop_isolation(false)]
fn read_nodes(text: &[u8]) -> (r: Result<NodeMap, LiraError>)
    ensures
        match r {
            Ok(nodes) => nodes_good(rows_of(text@)) && nodes@ == nodes_of(
                rows_of(text@),
                rows_of(text@).len() as int,
            ),
            Err(error) => exists|i: int| #[trigger]
                first_node_fault(rows_of(text@), i) && error == LiraError::BadNode((i + 1) as usize),
        },
{
    let places = split(text, true);
    let ghost rows = rows_of(text@);
    assert(at_places(text@, places@) == rows);
    let mut nodes = NodeMap::new();
    let mut i: usize = 0;
    while i < places.len()
        invariant
            i <= places@.len(),
            forall|k: int| 0 <= k < i ==> !#[trigger] node_fault(rows, k),
            nodes@ == nodes_of(rows, i as int),
        decreases places@.len() - i,
    {
        let place = places[i];
        let row = slice_subrange(text, place.0, place.1);
        assert(row@ == rows[i as int]) by {
            assert(at_places(text@, places@)[i as int] == text@.subrange(place.0 as int, place.1 as int));
        }
        match read_point(row) {
            Some(point) => {
                assert(!node_fault(rows, i as int));
                nodes.insert((i + 1) as u32, point);
            },
            None => {
                assert(first_node_fault(rows, i as int));
                return Err(LiraError::BadNode(i + 1));
            },
        }
        i += 1;
    }
    Ok(nodes)
}

pub open spec fn digits_value(digits: Seq<u8>) -> int
    decreases digits.len(),
{
    if digits.len() == 0 {
        0
    } else {
        digits_value(digits.drop_last()) * 10 + (digits.last() - 48)
    }
}

pub open spec fn all_digits(digits: Seq<u8>) -> bool {
    forall|i: int| 0 <= i < digits.len() ==> 48 <= #[trigger] digits[i] <= 57
}

pub open spec fn unsigned_part(word: Seq<u8>) -> Seq<u8> {
    if word.len() > 0 && word[0] == 43 {
        word.skip(1)
    } else {
        word
    }
}

/// A number without sign or with a plus, where it fits.
pub open spec fn number(word: Seq<u8>) -> Option<u32> {
    let digits = unsigned_part(word);
    if digits.len() > 0 && all_digits(digits) && digits_value(digits) <= u32::MAX {
        Some(digits_value(digits) as u32)
    } else {
        None
    }
}

proof fn value_grows(digits: Seq<u8>, upto: int)
    requires
        0 <= upto <= digits.len(),
        all_digits(digits),
    ensures
        0 <= digits_value(digits.take(upto)) <= digits_value(digits),
    decreases digits.len(),
{
    if digits.len() > 0 {
        let rest = digits.drop_last();
        assert(all_digits(rest)) by {
            assert forall|i: int| 0 <= i < rest.len() implies 48 <= #[trigger] rest[i] <= 57 by {
                assert(rest[i] == digits[i]);
            }
        }
        assert(48 <= digits[digits.len() - 1] <= 57);
        value_grows(rest, rest.len() as int);
        assert(rest.take(rest.len() as int) =~= rest);
        if upto < digits.len() {
            value_grows(rest, upto);
            assert(rest.take(upto) =~= digits.take(upto));
        } else {
            assert(digits.take(upto) =~= digits);
        }
    } else {
        assert(digits.take(upto) =~= digits);
    }
}

#[verifier::loop_isolation(false)]
fn read_number(word: &[u8]) -> (r: Option<u32>)
    ensures
        r == number(word@),
{
    let start: usize = if word.len() > 0 && word[0] == 43 {
        1
    } else {
        0
    };
    let ghost digits = unsigned_part(word@);
    assert(digits =~= word@.skip(start as int));
    if start == word.len() {
        return None;
    }
    let mut value: u64 = 0;
    let mut i: usize = start;
    while i < word.len()
        invariant
            start <= i <= word@.len(),
            forall|k: int| 0 <= k < i - start ==> 48 <= #[trigger] digits[k] <= 57,
            value == digits_value(digits.take(i - start)),
            value <= u32::MAX,
        decreases word@.len() - i,
    {
        let b: u8 = word[i];
        assert(digits[i - start] == b);
        if b < 48 || b > 57 {
            assert(!all_digits(digits));
            return None;
        }
        proof {
            let longer = digits.take(i - start + 1);
            assert(longer.drop_last() =~= digits.take(i - start));
            assert(longer.last() == b);
        }
        value = value * 10 + (b - 48) as u64;
        if value > u32::MAX as u64 {
            proof {
                if all_digits(digits) {
                    value_grows(digits, i - start + 1);
                }
            }
            return None;
        }
        i += 1;
    }
    assert(digits.take(i - start) =~= digits);
    Some(value as u32)
}

/// The numbers of a row, where all are numbers.
pub open spec fn row_numbers(words: Seq<Seq<u8>>, upto: int) -> Option<Seq<u32>>
    decreases upto,
{
    if upto <= 0 {
        Some(Seq::empty())
    } else {
        match (row_numbers(words, upto - 1), number(words[upto - 1])) {
            (Some(list), Some(value)) => Some(list.push(value)),
            _ => None,
        }
    }
}

proof fn numbers_fail(words: Seq<Seq<u8>>, k: int, upto: int)
    requires
        0 <= k < upto,
        number(words[k]) is None,
    ensures
        row_numbers(words, upto) is None,
    decreases upto,
{
    if k < upto - 1 {
        numbers_fail(words, k, upto - 1);
    }
}

#[verifier::loop_isolation(false)]
fn read_numbers(row: &[u8]) -> (r: Option<Vec<u32>>)
    ensures
        match r {
            Some(list) => row_numbers(words_of(row@), words_of(row@).len() as int) == Some(list@),
            None => row_numbers(words_of(row@), words_of(row@).len() as int) is None,
        },
{
    let places = split(row, false);
    let ghost words = words_of(row@);
    assert(at_places(row@, places@) == words);
    let mut list: Vec<u32> = Vec::new();
    let mut i: usize = 0;
    while i < places.len()
        invariant
            i <= places@.len(),
            row_numbers(words, i as int) == Some(list@),
        decreases places@.len() - i,
    {
        let place = places[i];
        let word = slice_subrange(row, place.0, place.1);
        assert(word@ == words[i as int]) by {
            assert(at_places(row@, places@)[i as int] == row@.subrange(place.0 as int, place.1 as int));
        }
        match read_number(word) {
            Some(value) => {
                list.push(value);
            },
            None => {
                proof {
                    numbers_fail(words, i as int, words.len() as int);
                }
                return None;
            },
        }
        i += 1;
    }
    Some(list)
}

/// How many nodes an element of a known type has.
pub open spec fn expected_nodes(elem_type: u32) -> Option<nat> {
    if elem_type == 10 {
        Some(2)
    } else if elem_type == 41 || elem_type == 44 {
        Some(4)
    } else if elem_type == 42 {
        Some(3)
    } else if elem_type == 56 {
        Some(1)
    } else {
        None
    }
}

pub open spec fn all_known(list: Seq<u32>, nodes: Map<u32, Point>) -> bool {
    forall|k: int| 2 <= k < list.len() ==> nodes.dom().contains(#[trigger] list[k])
}

/// What is wrong with an element row.
pub open spec fn element_fault(rows: Seq<Seq<u8>>, nodes: Map<u32, Point>, i: int) -> Option<LiraError> {
    let bad = LiraError::BadElement((i + 1) as usize);
    match row_numbers(words_of(rows[i]), words_of(rows[i]).len() as int) {
        None => Some(bad),
        Some(list) => if list.len() < 3 {
            Some(bad)
        } else if !all_known(list, nodes) {
            Some(LiraError::UnknownNode((i + 1) as usize))
        } else {
            match expected_nodes(list[0]) {
                Some(count) => if count != list.len() - 2 {
                    Some(bad)
                } else {
                    None
                },
                None => None,
            }
        },
    }
}

/// An element as its row gives it.
pub open spec fn element_at(element: ElementData, rows: Seq<Seq<u8>>, i: int) -> bool {
    let list = row_numbers(words_of(rows[i]), words_of(rows[i]).len() as int)->0;
    &&& element.id == (i + 1) as u32
    &&& element.elem_type == list[0]
    &&& element.stiff_id == list[1]
    &&& element.nodes@ == list.skip(2)
}

pub open spec fn first_element_fault(rows: Seq<Seq<u8>>, nodes: Map<u32, Point>, i: int) -> bool {
    &&& 0 <= i < rows.len()
    &&& element_fault(rows, nodes, i) is Some
    &&& forall|k: int| 0 <= k < i ==> #[trigger] element_fault(rows, nodes, k) is None
}

pub open spec fn elements_good(rows: Seq<Seq<u8>>, nodes: Map<u32, Point>) -> bool {
    forall|k: int| 0 <= k < rows.len() ==> #[trigger] element_fault(rows, nodes, k) is None
}

pub open spec fn elements_at(elements: Seq<ElementData>, rows: Seq<Seq<u8>>) -> bool {
    &&& elements.len() == rows.len()
    &&& forall|k: int| 0 <= k < rows.len() ==> element_at(#[trigger] elements[k], rows, k)
}

#[verifier::loop_isolation(false)]
fn read_element(row: &[u8], nodes: &NodeMap, index: usize, Ghost(rows): Ghost<Seq<Seq<u8>>>) -> (r: Result<
    ElementData,
    LiraError,
>)
    requires
        index < rows.len(),
        index < usize::MAX,
        row@ == rows[index as int],
    ensures
        match r {
            Ok(element) => element_fault(rows, nodes@, index as int) is None && element_at(
                element,
                rows,
                index as int,
            ),
            Err(error) => element_fault(rows, nodes@, index as int) == Some(error),
        },
{
    let list = match read_numbers(row) {
        Some(list) => list,
        None => {
            return Err(LiraError::BadElement(index + 1));
        },
    };
    if list.len() < 3 {
        return Err(LiraError::BadElement(index + 1));
    }
    let mut own: Vec<u32> = Vec::new();
    let mut k: usize = 2;
    while k < list.len()
        invariant
            2 <= k <= list@.len(),
            own@ =~= list@.subrange(2, k as int),
            forall|m: int| 2 <= m < k ==> nodes@.dom().contains(#[trigger] list@[m]),
        decreases list@.len() - k,
    {
        if !nodes.contains_key(list[k]) {
            assert(!all_known(list@, nodes@)) by {
                assert(!nodes@.dom().contains(list@[k as int]));
            }
            return Err(LiraError::UnknownNode(index + 1));
        }
        own.push(list[k]);
        k += 1;
    }
    assert(own@ =~= list@.skip(2));
    let elem_type: u32 = list[0];
    let fits: bool = if elem_type == 10 {
        own.len() == 2
    } else if elem_type == 41 || elem_type == 44 {
        own.len() == 4
    } else if elem_type == 42 {
        own.len() == 3
    } else if elem_type == 56 {
        own.len() == 1
    } else {
        true
    };
    if !fits {
        return Err(LiraError::BadElement(index + 1));
    }
    Ok(ElementData { id: (index + 1) as u32, elem_type, stiff_id: list[1], nodes: own })
}

#[verifier::loop_isolation(false)]
fn read_elements(text: &[u8], nodes: &NodeMap) -> (r: Result<Vec<ElementData>, LiraError>)
    ensures
        match r {
            Ok(elements) => elements_good(rows_of(text@), nodes@) && elements_at(
                elements@,
                rows_of(text@),
            ),
            Err(error) => exists|i: int| #[trigger]
                first_element_fault(rows_of(text@), nodes@, i) && element_fault(
                    rows_of(text@),
                    nodes@,
                    i,
                ) == Some(error),
        },
{
    let places = split(text, true);
    let ghost rows = rows_of(text@);
    assert(at_places(text@, places@) == rows);
    let mut elements: Vec<ElementData> = Vec::new();
    let mut i: usize = 0;
    while i < places.len()
        invariant
            i <= places@.len(),
            elements@.len() == i,
            forall|k: int| 0 <= k < i ==> #[trigger] element_fault(rows, nodes@, k) is None,
            forall|k: int| 0 <= k < i ==> element_at(#[trigger] elements@[k], rows, k),
        decreases places@.len() - i,
    {
        let place = places[i];
        let row = slice_subrange(text, place.0, place.1);
        assert(row@ == rows[i as int]) by {
            assert(at_places(text@, places@)[i as int] == text@.subrange(place.0 as int, place.1 as int));
        }
        match read_element(row, nodes, i, Ghost(rows)) {
            Ok(element) => {
                elements.push(element);
            },
            Err(error) => {
                assert(first_element_fault(rows, nodes@, i as int));
                return Err(error);
            },
        }
        i += 1;
    }
    Ok(elements)
}

/// What a scheme lacks, the first thing first.
pub open spec fn scheme_fault(content: Seq<u8>, error: LiraError) -> bool {
    match (block(content, 0, node_block()), block(content, 0, element_block())) {
        (None, _) => error == LiraError::NoNodes,
        (_, None) => error == LiraError::NoElements,
        (Some(nodes), Some(elements)) => {
            let places = rows_of(nodes);
            let rows = rows_of(elements);
            let table = nodes_of(places, places.len() as int);
            if !nodes_good(places) {
                exists|i: int| #[trigger]
                    first_node_fault(places, i) && error == LiraError::BadNode((i + 1) as usize)
            } else {
                exists|i: int| #[trigger]
                    first_element_fault(rows, table, i) && element_fault(rows, table, i) == Some(error)
            }
        },
    }
}

/// A scheme without fault, and what it holds.
pub open spec fn scheme(content: Seq<u8>, mesh: MeshData) -> bool {
    match (block(content, 0, node_block()), block(content, 0, element_block())) {
        (Some(nodes), Some(elements)) => {
            let places = rows_of(nodes);
            let table = nodes_of(places, places.len() as int);
            &&& nodes_good(places)
            &&& mesh.nodes@ == table
            &&& elements_good(rows_of(elements), table)
            &&& elements_at(mesh.elements@, rows_of(elements))
        },
        _ => false,
    }
}

/// Whether a name stands at a place and something follows it.
fn stands_at(content: &[u8], at: usize, name: &[u8]) -> (r: bool)
    requires
        at <= content@.len(),
    ensures
        r == (at + name@.len() < content@.len() && content@.subrange(at as int, at + name@.len()) == name@),
{
    let total: usize = content.len();
    if total - at <= name.len() {
        return false;
    }
    let mut k: usize = 0;
    while k < name.len()
        invariant
            k <= name@.len(),
            total == content@.len(),
            at + name@.len() < content@.len(),
            forall|m: int| 0 <= m < k ==> content@[at + m] == #[trigger] name@[m],
        decreases name@.len() - k,
    {
        if content[at + k] != name[k] {
            assert(content@.subrange(at as int, at + name@.len())[k as int] != name@[k as int]);
            return false;
        }
        k += 1;
    }
    assert(content@.subrange(at as int, at + name@.len()) =~= name@);
    true
}

impl LiraParser {
    /// The rows of the first block `( <id>/ ... )`.
    #[verifier::loop_isolation(false)]
    pub fn extract_block<'a>(content: &'a [u8], block_id: &[u8]) -> (r: Option<&'a [u8]>)
        ensures
            match r {
                Some(text) => block(content@, 0, block_id@) == Some(text@),
                None => block(content@, 0, block_id@) is None,
            },
    {
        let mut i: usize = 0;
        while i < content.len()
            invariant
                i <= content@.len(),
                block(content@, i as int, block_id@) == block(content@, 0, block_id@),
            decreases content@.len() - i,
        {
            if content[i] == 40 {
                let j: usize = skip_blanks(content, i + 1);
                if stands_at(content, j, block_id) {
                    let k: usize = skip_blanks(content, j + block_id.len());
                    if k < content.len() && content[k] == 47 {
                        match find_closing(content, k + 1) {
                            Some(end) => {
                                return Some(slice_subrange(content, k + 1, end));
                            },
                            None => {},
                        }
                    }
                }
            }
            i += 1;
        }
        None
    }

    /// Reads a scheme. Nothing is guessed: malformed rows are refused, and unknown
    /// element types are kept under their own numbers.
    pub fn parse_bytes(content: &[u8]) -> (r: Result<MeshData, LiraError>)
        ensures
            match r {
                Ok(mesh) => scheme(content@, mesh),
                Err(error) => scheme_fault(content@, error),
            },
    {
        let node_id: [u8; 1] = [52];
        let element_id: [u8; 1] = [49];
        assert(node_id@ =~= node_block());
        assert(element_id@ =~= element_block());
        let nodes = match Self::extract_block(content, node_id.as_slice()) {
            Some(text) => text,
            None => {
                return Err(LiraError::NoNodes);
            },
        };
        let elements = match Self::extract_block(content, element_id.as_slice()) {
            Some(text) => text,
            None => {
                return Err(LiraError::NoElements);
            },
        };
        let table = match read_nodes(nodes) {
            Ok(table) => table,
            Err(error) => {
                proof {
                    let i = choose|i: int| #[trigger]
                        first_node_fault(rows_of(nodes@), i) && error == LiraError::BadNode((i + 1) as usize);
                    assert(node_fault(rows_of(nodes@), i));
                }
                return Err(error);
            },
        };
        match read_elements(elements, &table) {
            Ok(list) => Ok(MeshData { nodes: table, elements: list }),
            Err(error) => Err(error),
        }
    }
}

/// Every row of the element block is one element, known type or not, and keeps
/// its place.
pub proof fn rows_are_kept(content: Seq<u8>, mesh: MeshData, k: int)
    requires
        scheme(content, mesh),
        0 <= k < mesh.elements@.len(),
    ensures
        mesh.elements@.len() == rows_of(block(content, 0, element_block())->0).len(),
        mesh.elements@[k].id == (k + 1) as u32,
{
    assert(element_at(mesh.elements@[k], rows_of(block(content, 0, element_block())->0), k));
}

/// What was read refers to known nodes only.
pub proof fn references_are_known(content: Seq<u8>, mesh: MeshData, k: int, n: int)
    requires
        scheme(content, mesh),
        0 <= k < mesh.elements@.len(),
        0 <= n < mesh.elements@[k].nodes@.len(),
    ensures
        mesh.nodes@.dom().contains(mesh.elements@[k].nodes@[n]),
{
    let rows = rows_of(block(content, 0, element_block())->0);
    let list = row_numbers(words_of(rows[k]), words_of(rows[k]).len() as int)->0;
    assert(element_at(mesh.elements@[k], rows, k));
    assert(element_fault(rows, mesh.nodes@, k) is None);
    assert(mesh.elements@[k].nodes@[n] == list[n + 2]);
}

/// Blanks are the space, the tab and the two characters that end a line.
pub proof fn blanks_are_known(b: u8)
    ensures
        blank(b) <==> seq![32u8, 9u8, 13u8, 10u8].contains(b),
{
    let all = seq![32u8, 9u8, 13u8, 10u8];
    assert(all[0] == 32 && all[1] == 9 && all[2] == 13 && all[3] == 10);
}

proof fn pieces_of_prefix(a: Seq<u8>, b: Seq<u8>, rows: bool, upto: int)
    requires
        0 <= upto <= a.len(),
    ensures
        ended(a + b, rows, upto) == ended(a, rows, upto),
        piece_start(a + b, rows, upto) == piece_start(a, rows, upto),
        0 <= piece_start(a, rows, upto) <= upto,
    decreases upto,
{
    if upto > 0 {
        pieces_of_prefix(a, b, rows, upto - 1);
        assert((a + b)[upto - 1] == a[upto - 1]);
        let start = piece_start(a, rows, upto - 1);
        assert((a + b).subrange(start, upto - 1) =~= a.subrange(start, upto - 1));
    }
}

proof fn pieces_after(a: Seq<u8>, sep: u8, b: Seq<u8>, rows: bool, upto: int)
    requires
        parts(sep, rows),
        0 <= upto <= b.len(),
    ensures
        ({
            let text = a + seq![sep] + b;
            let n = a.len() + 1;
            &&& ended(text, rows, n + upto) == pieces(a, rows) + ended(b, rows, upto)
            &&& piece_start(text, rows, n + upto) == n + piece_start(b, rows, upto)
            &&& 0 <= piece_start(b, rows, upto) <= upto
        }),
    decreases upto,
{
    let text = a + seq![sep] + b;
    let n = a.len() + 1;
    if upto == 0 {
        pieces_of_prefix(a, seq![sep] + b, rows, a.len() as int);
        assert(text =~= a + (seq![sep] + b));
        assert(text[a.len() as int] == sep);
        let start = piece_start(a, rows, a.len() as int);
        assert(text.subrange(start, a.len() as int) =~= a.subrange(start, a.len() as int));
        assert(ended(text, rows, n as int) == pieces(a, rows));
        assert(pieces(a, rows) + ended(b, rows, 0) =~= pieces(a, rows));
    } else {
        pieces_after(a, sep, b, rows, upto - 1);
        assert(text[n + upto - 1] == b[upto - 1]);
        if parts(b[upto - 1], rows) {
            let start = piece_start(b, rows, upto - 1);
            let piece = b.subrange(start, upto - 1);
            assert(text.subrange(n + start, n + upto - 1) =~= piece);
            assert(ended(text, rows, n + upto) =~= pieces(a, rows) + ended(b, rows, upto));
        }
    }
}

/// A separator parts a text: what it is made of is what stands before it is made of, and then
/// what stands after it is made of.
pub proof fn separators_part_a_text(a: Seq<u8>, sep: u8, b: Seq<u8>)
    ensures
        blank(sep) ==> words_of(a + seq![sep] + b) == words_of(a) + words_of(b),
        sep == 47 ==> rows_of(a + seq![sep] + b) == rows_of(a) + rows_of(b),
{
    if blank(sep) {
        separator_parts(a, sep, b, false);
    }
    if sep == 47 {
        separator_parts(a, sep, b, true);
    }
}

proof fn separator_parts(a: Seq<u8>, sep: u8, b: Seq<u8>, rows: bool)
    requires
        parts(sep, rows),
    ensures
        pieces(a + seq![sep] + b, rows) == pieces(a, rows) + pieces(b, rows),
{
    let text = a + seq![sep] + b;
    let n = a.len() + 1;
    pieces_after(a, sep, b, rows, b.len() as int);
    let start = piece_start(b, rows, b.len() as int);
    assert(text.len() == n + b.len());
    assert(text.subrange(n + start, text.len() as int) =~= b.subrange(start, b.len() as int));
    assert(pieces(text, rows) =~= pieces(a, rows) + pieces(b, rows));
}

proof fn one_piece(text: Seq<u8>, rows: bool, upto: int)
    requires
        0 <= upto <= text.len(),
        forall|k: int| 0 <= k < text.len() ==> !parts(#[trigger] text[k], rows),
    ensures
        ended(text, rows, upto) == Seq::<Seq<u8>>::empty(),
        piece_start(text, rows, upto) == 0,
    decreases upto,
{
    if upto > 0 {
        one_piece(text, rows, upto - 1);
        assert(!parts(text[upto - 1], rows));
    }
}

/// A text without a blank is one word, unless it is empty.
pub proof fn words_have_no_blank(text: Seq<u8>)
    requires
        forall|k: int| 0 <= k < text.len() ==> !blank(#[trigger] text[k]),
    ensures
        words_of(text) == if text.len() == 0 {
            Seq::<Seq<u8>>::empty()
        } else {
            seq![text]
        },
{
    assert forall|k: int| 0 <= k < text.len() implies !parts(#[trigger] text[k], false) by {}
    one_piece(text, false, text.len() as int);
    assert(text.subrange(0, text.len() as int) =~= text);
    assert(words_of(text) =~= if text.len() == 0 {
        Seq::<Seq<u8>>::empty()
    } else {
        seq![text]
    });
}

/// A text without a slash is one row, unless all of it is blank.
pub proof fn rows_have_no_slash(text: Seq<u8>)
    requires
        forall|k: int| 0 <= k < text.len() ==> #[trigger] text[k] != 47,
    ensures
        rows_of(text) == if (forall|k: int| 0 <= k < text.len() ==> blank(#[trigger] text[k])) {
            Seq::<Seq<u8>>::empty()
        } else {
            seq![text]
        },
{
    assert forall|k: int| 0 <= k < text.len() implies !parts(#[trigger] text[k], true) by {}
    one_piece(text, true, text.len() as int);
    assert(text.subrange(0, text.len() as int) =~= text);
    assert(all_blank(text) == (forall|k: int| 0 <= k < text.len() ==> blank(#[trigger] text[k])));
    assert(rows_of(text) =~= if all_blank(text) {
        Seq::<Seq<u8>>::empty()
    } else {
        seq![text]
    });
}

/// The bytes of a number in writing.
pub open spec fn digit_bytes(text: Seq<char>) -> Seq<u8> {
    Seq::new(text.len(), |k: int| text[k] as u8)
}

proof fn bytes_keep_value(text: Seq<char>)
    requires
        forall|k: int| 0 <= k < text.len() ==> '0' as int <= #[trigger] text[k] as int <= '9' as int,
    ensures
        digits_value(digit_bytes(text)) == value_of(text),
        all_digits(digit_bytes(text)),
    decreases text.len(),
{
    if text.len() > 0 {
        bytes_keep_value(text.drop_last());
        assert(digit_bytes(text).drop_last() =~= digit_bytes(text.drop_last()));
        assert(digit_bytes(text).last() == text.last() as u8);
    }
}

/// A number is read as it is written, with a plus before it or without.
pub proof fn numbers_are_read_as_written(n: u32)
    ensures
        number(digit_bytes(decimal(n as nat))) == Some(n),
        number(seq![43u8] + digit_bytes(decimal(n as nat))) == Some(n),
{
    decimals_denote_their_number(n as nat);
    let word = digit_bytes(decimal(n as nat));
    bytes_keep_value(decimal(n as nat));
    assert(word[0] == decimal(n as nat)[0] as u8);
    assert((seq![43u8] + word).skip(1) =~= word);
}

/// What is read is what the digits of a word come to, and nothing else is read: no digit, no
/// number; and nothing above the largest one.
pub proof fn only_digits_are_numbers(word: Seq<u8>, k: int)
    requires
        0 <= k < word.len(),
        !(48 <= word[k] <= 57),
        k > 0 || word[0] != 43,
    ensures
        number(word) is None,
{
    let digits = unsigned_part(word);
    if word[0] == 43 {
        assert(digits[k - 1] == word[k]);
    }
}

proof fn numbers_of_row(words: Seq<Seq<u8>>, upto: int)
    requires
        0 <= upto <= words.len(),
        row_numbers(words, upto) is Some,
    ensures
        row_numbers(words, upto)->0.len() == upto,
        forall|k: int| 0 <= k < upto ==> number(words[k]) == Some(#[trigger] row_numbers(words, upto)->0[k]),
    decreases upto,
{
    if upto > 0 {
        numbers_of_row(words, upto - 1);
    }
}

/// A row of the element block is read whole: its words, as numbers and in order, are the
/// type of the element, its stiffness and its nodes. Writing these back gives the row.
pub proof fn element_rows_are_read_whole(content: Seq<u8>, mesh: MeshData, i: int)
    requires
        scheme(content, mesh),
        0 <= i < mesh.elements@.len(),
    ensures
        ({
            let words = words_of(rows_of(block(content, 0, element_block())->0)[i]);
            let element = mesh.elements@[i];
            let list = seq![element.elem_type, element.stiff_id] + element.nodes@;
            &&& list.len() == words.len()
            &&& forall|k: int| 0 <= k < words.len() ==> number(#[trigger] words[k]) == Some(list[k])
        }),
{
    let rows = rows_of(block(content, 0, element_block())->0);
    let words = words_of(rows[i]);
    let element = mesh.elements@[i];
    let places = rows_of(block(content, 0, node_block())->0);
    assert(element_at(element, rows, i));
    assert(element_fault(rows, nodes_of(places, places.len() as int), i) is None);
    numbers_of_row(words, words.len() as int);
    let read = row_numbers(words, words.len() as int)->0;
    let list = seq![element.elem_type, element.stiff_id] + element.nodes@;
    assert(list =~= read);
}

proof fn nodes_by_row(rows: Seq<Seq<u8>>, upto: int, id: u32)
    requires
        0 <= upto <= rows.len(),
        upto <= u32::MAX,
    ensures
        nodes_of(rows, upto).dom().contains(id) <==> 1 <= id <= upto,
        1 <= id <= upto ==> nodes_of(rows, upto)[id] == point_of_row(rows[id - 1])->0,
    decreases upto,
{
    if upto > 0 {
        nodes_by_row(rows, upto - 1, id);
    }
}

/// A row of the node block is one node, numbered by its place. Its three words, in order, are
/// the coordinates of the node.
pub proof fn node_rows_are_read_whole(content: Seq<u8>, mesh: MeshData, id: u32)
    requires
        scheme(content, mesh),
        rows_of(block(content, 0, node_block())->0).len() <= u32::MAX,
    ensures
        ({
            let rows = rows_of(block(content, 0, node_block())->0);
            &&& mesh.nodes@.dom().contains(id) <==> 1 <= id <= rows.len()
            &&& mesh.nodes@.dom().contains(id) ==> {
                let words = words_of(rows[id - 1]);
                &&& words.len() == 3
                &&& forall|d: int|
                    0 <= d < 3 ==> coordinate_bits(words[d]) == Some((#[trigger] mesh.nodes@[id][d]).bits)
                        && mesh.nodes@[id][d].finite()
            }
        }),
{
    let rows = rows_of(block(content, 0, node_block())->0);
    nodes_by_row(rows, rows.len() as int, id);
    if 1 <= id <= rows.len() {
        assert(!node_fault(rows, id - 1));
    }
}

/// Elements that are read with a type of a known family belong to it: type 10 makes a bar,
/// types 41, 42 and 44 make shells, and type 56 has one node.
pub proof fn known_types_are_whole(content: Seq<u8>, mesh: MeshData, i: int)
    requires
        scheme(content, mesh),
        0 <= i < mesh.elements@.len(),
    ensures
        mesh.elements@[i].nodes@.len() > 0,
        mesh.elements@[i].elem_type == 10 ==> mesh.elements@[i].bar(),
        mesh.elements@[i].elem_type == 41 || mesh.elements@[i].elem_type == 42 || mesh.elements@[i].elem_type == 44
            ==> mesh.elements@[i].shell(),
        mesh.elements@[i].elem_type == 56 ==> mesh.elements@[i].nodes@.len() == 1,
{
    let rows = rows_of(block(content, 0, element_block())->0);
    let places = rows_of(block(content, 0, node_block())->0);
    assert(element_at(mesh.elements@[i], rows, i));
    assert(element_fault(rows, nodes_of(places, places.len() as int), i) is None);
}

/// A scheme is read or refused, never both.
pub proof fn faults_are_refused(content: Seq<u8>, mesh: MeshData, error: LiraError)
    requires
        scheme_fault(content, error),
    ensures
        !scheme(content, mesh),
{
    if scheme(content, mesh) {
        let places = rows_of(block(content, 0, node_block())->0);
        let rows = rows_of(block(content, 0, element_block())->0);
        let table = nodes_of(places, places.len() as int);
        let i = choose|i: int| #[trigger] first_element_fault(rows, table, i) && element_fault(rows, table, i) == Some(error);
        assert(element_fault(rows, table, i) is None);
    }
}

/// A refusal names the first row that is at fault, counted from one.
pub proof fn refusals_name_the_row(content: Seq<u8>, error: LiraError)
    requires
        scheme_fault(content, error),
        content.len() < usize::MAX,
    ensures
        match error {
            LiraError::NoNodes => block(content, 0, node_block()) is None,
            LiraError::NoElements => block(content, 0, node_block()) is Some && block(content, 0, element_block()) is None,
            LiraError::BadNode(row) => exists|i: int|
                0 <= i && (i + 1) as usize == row && point_of_row(
                    #[trigger] rows_of(block(content, 0, node_block())->0)[i],
                ) is None,
            LiraError::BadElement(row) => exists|i: int|
                0 <= i && (i + 1) as usize == row && bad_row(#[trigger] rows_of(block(content, 0, element_block())->0)[i]),
            LiraError::UnknownNode(row) => exists|i: int|
                0 <= i && (i + 1) as usize == row && !bad_shape(
                    #[trigger] rows_of(block(content, 0, element_block())->0)[i],
                ),
        },
{
    if block(content, 0, node_block()) is Some && block(content, 0, element_block()) is Some {
        let places = rows_of(block(content, 0, node_block())->0);
        let rows = rows_of(block(content, 0, element_block())->0);
        let table = nodes_of(places, places.len() as int);
        if !nodes_good(places) {
            let i = choose|i: int| #[trigger] first_node_fault(places, i) && error == LiraError::BadNode((i + 1) as usize);
            assert(point_of_row(places[i]) is None);
        } else {
            let i = choose|i: int| #[trigger] first_element_fault(rows, table, i) && element_fault(rows, table, i) == Some(error);
            let words = words_of(rows[i]);
            if row_numbers(words, words.len() as int) is Some {
                numbers_of_row(words, words.len() as int);
                let list = row_numbers(words, words.len() as int)->0;
                assert forall|k: int| 0 <= k < words.len() implies number(#[trigger] words[k]) is Some by {
                    assert(number(words[k]) == Some(list[k]));
                }
            } else {
                some_word_is_no_number(words, words.len() as int);
            }
            match error {
                LiraError::BadElement(row) => {
                    assert(bad_row(rows[i]));
                },
                LiraError::UnknownNode(row) => {
                    assert(!bad_shape(rows[i]));
                },
                _ => {},
            }
        }
    }
}

proof fn some_word_is_no_number(words: Seq<Seq<u8>>, upto: int) -> (k: int)
    requires
        0 <= upto <= words.len(),
        row_numbers(words, upto) is None,
    ensures
        0 <= k < upto,
        number(words[k]) is None,
    decreases upto,
{
    if row_numbers(words, upto - 1) is None {
        some_word_is_no_number(words, upto - 1)
    } else {
        upto - 1
    }
}

/// A row with fewer than three words, or with a word that is no number.
pub open spec fn bad_shape(row: Seq<u8>) -> bool {
    words_of(row).len() < 3 || exists|k: int| 0 <= k < words_of(row).len() && number(#[trigger] words_of(row)[k]) is None
}

/// A row of bad shape, or one with the wrong number of nodes for its type.
pub open spec fn bad_row(row: Seq<u8>) -> bool {
    let words = words_of(row);
    bad_shape(row) || match number(words[0])->0 {
        10 => words.len() != 4,
        41 => words.len() != 6,
        44 => words.len() != 6,
        42 => words.len() != 5,
        56 => words.len() != 3,
        _ => false,
    }
}

proof fn closing_at(content: Seq<u8>, from: int, end: int)
    requires
        0 <= from <= end < content.len(),
        content[end] == 41,
        forall|k: int| from <= k < end ==> #[trigger] content[k] != 40 && content[k] != 41,
    ensures
        closing(content, from, 1) == Some(end),
    decreases end - from,
{
    if from < end {
        assert(content[from] != 40 && content[from] != 41);
        closing_at(content, from + 1, end);
    }
}

/// A block that a text begins with is found by its name, and what it holds is all that stands
/// between the slash and the bracket that closes it.
pub proof fn blocks_hold_what_is_bracketed(id: Seq<u8>, rows: Seq<u8>, rest: Seq<u8>)
    requires
        id.len() > 0,
        !blank(id[0]),
        forall|k: int| 0 <= k < rows.len() ==> #[trigger] rows[k] != 40 && rows[k] != 41,
    ensures
        block(seq![40u8] + id + seq![47u8] + rows + seq![41u8] + rest, 0, id) == Some(rows),
{
    let content = seq![40u8] + id + seq![47u8] + rows + seq![41u8] + rest;
    let n = id.len() as int;
    assert(content[1] == id[0]);
    assert(content.subrange(1, 1 + n) =~= id);
    assert(content[1 + n] == 47);
    assert(opening(content, 0, id) == Some(n + 2));
    let end = n + 2 + rows.len();
    assert forall|k: int| n + 2 <= k < end implies #[trigger] content[k] != 40 && content[k] != 41 by {
        assert(content[k] == rows[k - n - 2]);
    }
    assert(content[end] == 41);
    closing_at(content, n + 2, end);
    assert(content.subrange(n + 2, end) =~= rows);
}

} // verus!
