//! File sequencer behaviour, with the filesystem simulated as a plain
//! list of names: tests apply the returned actions to the list exactly as
//! the I/O layer applies them to the directory.

use serial_logger::sequencer::counter_file_name;
use serial_logger::sequencer::data_file_name;
use serial_logger::BootstrapActions;
use serial_logger::RotateActions;
use serial_logger::SequencerError;
use serial_logger::SequencerState;

fn names(xs: &[&[u8]]) -> Vec<Vec<u8>> {
    xs.iter().map(|x| x.to_vec()).collect()
}

fn apply_bootstrap(dir: &mut Vec<Vec<u8>>, actions: &BootstrapActions) {
    if actions.initialize {
        dir.push(counter_file_name(0));
        dir.push(data_file_name(0));
    }
}

fn apply_rotate(dir: &mut Vec<Vec<u8>>, actions: &RotateActions) {
    dir.retain(|n| n != &actions.rename_from);
    dir.push(actions.rename_to.clone());
    dir.push(actions.create_data.clone());
}

#[test]
fn bootstrap_missing_directory_initializes_at_zero() {
    let r = SequencerState::bootstrap(b"data/".to_vec(), None).unwrap();
    assert_eq!(r.0.counter, 0);
    assert!(r.1.create_directory);
    assert!(r.1.initialize);
    // The two files those actions create.
    assert_eq!(counter_file_name(0), b"0".to_vec());
    assert_eq!(data_file_name(0), b"data_0".to_vec());
}

#[test]
fn bootstrap_empty_directory_initializes_at_zero() {
    let dir = names(&[]);
    let r = SequencerState::bootstrap(b"data/".to_vec(), Some(&dir)).unwrap();
    assert_eq!(r.0.counter, 0);
    assert!(!r.1.create_directory);
    assert!(r.1.initialize);
}

#[test]
fn bootstrap_twice_yields_same_counter() {
    let mut dir = names(&[]);
    let first = SequencerState::bootstrap(b"data/".to_vec(), Some(&dir)).unwrap();
    apply_bootstrap(&mut dir, &first.1);
    let second = SequencerState::bootstrap(b"data/".to_vec(), Some(&dir)).unwrap();
    assert_eq!(first.0.counter, 0);
    assert_eq!(second.0.counter, 0);
    assert!(!second.1.create_directory);
    assert!(!second.1.initialize);
}

#[test]
fn bootstrap_resumes_from_counter_file() {
    // Counter file "3" sorts before the data files and carries the state.
    let dir = names(&[b"3", b"data_0", b"data_1", b"data_2"]);
    let r = SequencerState::bootstrap(b"data/".to_vec(), Some(&dir)).unwrap();
    assert_eq!(r.0.counter, 3);
    assert!(!r.1.initialize);
}

#[test]
fn bootstrap_sorts_the_listing_itself() {
    // The counter file is found even when the listing arrives unsorted.
    let dir = names(&[b"data_0", b"0"]);
    let r = SequencerState::bootstrap(b"data/".to_vec(), Some(&dir)).unwrap();
    assert_eq!(r.0.counter, 0);
}

#[test]
fn bootstrap_rejects_non_numeric_first_entry() {
    let dir = names(&[b"banana"]);
    let r = SequencerState::bootstrap(b"data/".to_vec(), Some(&dir));
    assert_eq!(r.unwrap_err(), SequencerError::CorruptCounter);
}

#[test]
fn bootstrap_rejects_missing_counter_file() {
    // Only data files: the first-sorted entry is not a bare number.
    let dir = names(&[b"data_0", b"data_1"]);
    let r = SequencerState::bootstrap(b"data/".to_vec(), Some(&dir));
    assert_eq!(r.unwrap_err(), SequencerError::CorruptCounter);
}

#[test]
fn bootstrap_rejects_oversized_counter() {
    let dir = names(&[b"99999999999"]);
    let r = SequencerState::bootstrap(b"data/".to_vec(), Some(&dir));
    assert_eq!(r.unwrap_err(), SequencerError::CorruptCounter);
}

#[test]
fn rotate_renames_counter_and_creates_next_data_file() {
    let dir = names(&[b"3", b"data_0", b"data_1", b"data_2"]);
    let mut st = SequencerState::bootstrap(b"data/".to_vec(), Some(&dir)).unwrap().0;
    let actions = st.rotate(&dir).unwrap();
    assert_eq!(actions.rename_from, b"3".to_vec());
    assert_eq!(actions.rename_to, b"4".to_vec());
    assert_eq!(actions.create_data, b"data_4".to_vec());
    assert_eq!(st.counter, 4);
}

#[test]
fn rotate_n_times_covers_every_generation() {
    let mut dir = names(&[]);
    let boot = SequencerState::bootstrap(b"data/".to_vec(), Some(&dir)).unwrap();
    apply_bootstrap(&mut dir, &boot.1);
    let mut st = boot.0;
    for _ in 0..3 {
        let actions = st.rotate(&dir).unwrap();
        apply_rotate(&mut dir, &actions);
    }
    assert_eq!(st.counter, 3);
    assert!(dir.contains(&b"3".to_vec()));
    for k in 0..=3u32 {
        assert!(dir.contains(&data_file_name(k)));
    }
    // One counter file plus one data file per generation: nothing else.
    assert_eq!(dir.len(), 5);
}

#[test]
fn rotate_collides_on_existing_next_data_file() {
    let dir = names(&[b"0", b"data_0", b"data_1"]);
    let mut st = SequencerState::bootstrap(b"data/".to_vec(), Some(&dir)).unwrap().0;
    assert_eq!(st.counter, 0);
    let r = st.rotate(&dir);
    assert_eq!(r.unwrap_err(), SequencerError::GenerationCollision);
    assert_eq!(st.counter, 0);
}

#[test]
fn current_path_joins_directory_and_data_name() {
    let st = SequencerState { directory: b"data/".to_vec(), counter: 7 };
    assert_eq!(st.current_path(), b"data/data_7".to_vec());
}

#[test]
fn file_names_render_in_plain_decimal() {
    assert_eq!(counter_file_name(12), b"12".to_vec());
    assert_eq!(counter_file_name(4294967295), b"4294967295".to_vec());
    assert_eq!(data_file_name(12), b"data_12".to_vec());
}
