use wdl::diagnostics::Span;
use wdl::stdlib::read_lines::split_lines;
use wdl::stdlib::Implementation;

const SIZE: Span = Span { start: 12, len: 3 };
const ARRAY: Span = Span { start: 13, len: 2 };

#[test]
fn chunk() {
    let empty: Vec<i64> = vec![];
    let value = wdl::stdlib::chunk::chunk(&empty, 10, SIZE).unwrap();
    assert_eq!(value.len(), 0);

    let array = vec![1i64, 2, 3, 4, 5];
    assert_eq!(wdl::stdlib::chunk::chunk(&array, 1, SIZE).unwrap(), vec![vec![1], vec![2], vec![3], vec![4], vec![5]]);
    assert_eq!(wdl::stdlib::chunk::chunk(&array, 2, SIZE).unwrap(), vec![vec![1, 2], vec![3, 4], vec![5]]);
    assert_eq!(wdl::stdlib::chunk::chunk(&array, 3, SIZE).unwrap(), vec![vec![1, 2, 3], vec![4, 5]]);
    assert_eq!(wdl::stdlib::chunk::chunk(&array, 4, SIZE).unwrap(), vec![vec![1, 2, 3, 4], vec![5]]);
    assert_eq!(wdl::stdlib::chunk::chunk(&array, 5, SIZE).unwrap(), vec![vec![1, 2, 3, 4, 5]]);
    assert_eq!(wdl::stdlib::chunk::chunk(&array, 10, SIZE).unwrap(), vec![vec![1, 2, 3, 4, 5]]);

    let diagnostic = wdl::stdlib::chunk::chunk(&vec![1i64, 2, 3], -10, SIZE).unwrap_err();
    assert_eq!(
        diagnostic.message(),
        "call to function `chunk` failed: chunk size cannot be negative"
    );
    assert_eq!(diagnostic.span, SIZE);
}

#[test]
fn select_first() {
    let empty: Vec<Option<i64>> = vec![];
    let diagnostic = wdl::stdlib::select_first::select_first(&empty, None, ARRAY).unwrap_err();
    assert_eq!(diagnostic.message(), "call to function `select_first` failed: array is empty");
    assert_eq!(diagnostic.span, ARRAY);

    let diagnostic = wdl::stdlib::select_first::select_first(&empty, Some(1), ARRAY).unwrap_err();
    assert_eq!(diagnostic.message(), "call to function `select_first` failed: array is empty");

    let nones: Vec<Option<i64>> = vec![None, None, None];
    let diagnostic = wdl::stdlib::select_first::select_first(&nones, None, ARRAY).unwrap_err();
    assert_eq!(
        diagnostic.message(),
        "call to function `select_first` failed: array contains only `None` values"
    );

    assert_eq!(wdl::stdlib::select_first::select_first(&nones, Some(12345), ARRAY).unwrap(), 12345);
    assert_eq!(wdl::stdlib::select_first::select_first(&vec![Some(1i64), None, Some(3)], None, ARRAY).unwrap(), 1);
    assert_eq!(wdl::stdlib::select_first::select_first(&vec![None, Some(2i64), Some(3)], None, ARRAY).unwrap(), 2);
    assert_eq!(wdl::stdlib::select_first::select_first(&vec![None, None, Some(3i64)], None, ARRAY).unwrap(), 3);
    assert_eq!(wdl::stdlib::select_first::select_first(&vec![None, Some(2i64), None], Some(12345), ARRAY).unwrap(), 2);
    assert_eq!(wdl::stdlib::select_first::select_first(&vec![Some(1i64), Some(2), Some(3)], None, ARRAY).unwrap(), 1);
}

#[test]
fn unzip() {
    let empty: Vec<(i64, &str)> = vec![];
    let (left, right) = wdl::stdlib::unzip::unzip(&empty);
    assert_eq!(left.len(), 0);
    assert_eq!(right.len(), 0);

    let (left, right) = wdl::stdlib::unzip::unzip(&vec![(1i64, "a"), (2, "b"), (3, "c")]);
    assert_eq!(left, [1, 2, 3]);
    assert_eq!(right, ["a", "b", "c"]);
}

#[test]
fn read_lines() {
    let elements = split_lines("\nhello!\nworld!\n\r\nhi!\r\nthere!");
    assert_eq!(elements, ["", "hello!", "world!", "", "hi!", "there!"]);

    let elements = split_lines("");
    assert!(elements.is_empty());
}

#[test]
fn split_lines_keeps_lone_carriage_return_on_last_line() {
    assert_eq!(split_lines("a\r\nb\r"), ["a", "b\r"]);
    assert_eq!(split_lines("one\n"), ["one"]);
    assert_eq!(split_lines("\n\n"), ["", ""]);
}

#[test]
fn descriptors_name_signatures() {
    assert_eq!(wdl::stdlib::chunk::descriptor().signatures[0].text, "(Array[X], Int) -> Array[Array[X]]");
    assert_eq!(wdl::stdlib::select_first::descriptor().signatures[0].text, "(Array[X], <X>) -> X");
    assert_eq!(
        wdl::stdlib::unzip::descriptor().signatures[0].text,
        "(Array[Pair[X, Y]]) -> Pair[Array[X], Array[Y]]"
    );
    assert_eq!(wdl::stdlib::read_lines::descriptor().signatures[0].text, "(File) -> Array[String]");
    assert_eq!(wdl::stdlib::chunk::descriptor().signatures.len(), 1);
    assert_eq!(wdl::stdlib::chunk::descriptor().signatures[0].implementation, Implementation::Chunk);
    assert_eq!(wdl::stdlib::select_first::descriptor().signatures[0].implementation, Implementation::SelectFirst);
    assert_eq!(wdl::stdlib::unzip::descriptor().signatures[0].implementation, Implementation::Unzip);
    assert_eq!(wdl::stdlib::read_lines::descriptor().signatures[0].implementation, Implementation::ReadLines);
}
