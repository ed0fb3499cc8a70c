use meshopt::util::fill_slice;
use meshopt::util::read_byte;
use meshopt::util::write_byte;
use meshopt::util::write_exact;
use meshopt::util::write_outcome;
use meshopt::util::write_slice;

#[test]
fn fills_every_element() {
    let mut values = [1, 2, 3];
    fill_slice(&mut values, 7);
    assert_eq!(values, [7, 7, 7]);
    let mut names = vec![String::new(), String::from("a")];
    fill_slice(&mut names, String::from("b"));
    assert_eq!(names, ["b", "b"]);
}

#[test]
fn reads_to_the_end_and_then_zero() {
    let bytes = [3, 5];
    let mut data: &[u8] = &bytes;
    assert_eq!(read_byte(&mut data), 3);
    assert_eq!(data, [5]);
    assert_eq!(read_byte(&mut data), 5);
    assert_eq!(read_byte(&mut data), 0);
    assert_eq!(data, []);
}

#[test]
fn writes_what_there_is_room_for() {
    let mut buffer = [0; 4];
    let (count, rest) = write_slice(&mut buffer, &[1, 2, 3]);
    assert_eq!(count, 3);
    let (count, rest) = write_slice(rest, &[4, 5]);
    assert_eq!(count, 1);
    assert_eq!(rest, []);
    assert_eq!(buffer, [1, 2, 3, 4]);
}

#[test]
fn writes_single_bytes() {
    let mut buffer = [0; 2];
    let (count, rest) = write_byte(&mut buffer, 8);
    assert_eq!(count, 1);
    let (count, rest) = write_byte(rest, 9);
    assert_eq!(count, 1);
    let (count, rest) = write_byte(rest, 10);
    assert_eq!((count, rest.len()), (0, 0));
    assert_eq!(buffer, [8, 9]);
}

#[test]
fn exact_writes_fail_without_room() {
    let mut buffer = [0; 4];
    let (written, rest) = write_exact(&mut buffer, &[1, 2, 3]);
    assert_eq!(written, Some(3));
    let (written, rest) = write_exact(rest, &[]);
    assert_eq!(written, Some(0));
    let (written, rest) = write_exact(rest, &[4, 5]);
    assert_eq!(written, None);
    assert_eq!(rest, []);
    assert_eq!(buffer, [1, 2, 3, 4]);
}

#[test]
fn short_and_failed_writes_are_not_exact() {
    assert_eq!(write_outcome::<()>(Ok(3), 3), Some(3));
    assert_eq!(write_outcome::<()>(Ok(2), 3), None);
    assert_eq!(write_outcome(Err("broken pipe"), 3), None);
}

#[test]
fn bytes_written_are_read_back() {
    let mut buffer = [0; 3];
    let (_, rest) = write_byte(&mut buffer, 8);
    let (written, _) = write_exact(rest, &[9, 10]);
    assert_eq!(written, Some(2));
    let mut data: &[u8] = &buffer;
    assert_eq!(read_byte(&mut data), 8);
    assert_eq!(read_byte(&mut data), 9);
    assert_eq!(read_byte(&mut data), 10);
    assert_eq!(read_byte(&mut data), 0);
}
