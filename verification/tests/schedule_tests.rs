use load_tester::{Action, InvalidLoad, LoadSchedule};

/// The growth of the rate from one second to the next, as the program computes it.
fn grown_rate(rate: u32, increment: u8) -> u32 {
    (rate as f32 * (1.0 + (increment as f32 / 100.0) as f32)).ceil() as u32
}

/// Drives a schedule to its end; returns the requests sent in each second
/// and the total that the schedule reports at the end.
fn drive(seconds: u32, requests_per_second: u32, increment: u8) -> (Vec<u32>, u32) {
    let mut schedule = LoadSchedule::new(seconds, requests_per_second, increment).unwrap();
    let mut per_second: Vec<u32> = vec![0];
    let mut reported: Vec<u32> = vec![];
    loop {
        match schedule.next_action() {
            Action::Grow { rate, increment } => {
                per_second.push(0);
                schedule.set_rate(grown_rate(rate, increment));
            }
            Action::Send => {
                *per_second.last_mut().unwrap() += 1;
                schedule.record_sent();
            }
            Action::EndSecond(sent) => {
                reported.push(sent);
                schedule.end_second();
            }
            Action::Finish(sent) => {
                assert_eq!(seconds as usize, reported.len());
                assert_eq!(Some(&sent), reported.last());
                return (per_second, sent);
            }
        }
    }
}

#[test]
#[should_panic(expected = "Valori delle richieste per secondo e/o tempo di esecuzione non validi")]
fn seconds_0() {
    LoadSchedule::new(0, 3, 0).expect("Valori delle richieste per secondo e/o tempo di esecuzione non validi");
}

#[test]
#[should_panic(expected = "Valori delle richieste per secondo e/o tempo di esecuzione non validi")]
fn requests_per_second_0() {
    LoadSchedule::new(3, 0, 0).expect("Valori delle richieste per secondo e/o tempo di esecuzione non validi");
}

#[test]
fn correct() {
    let (per_second, requests_number) = drive(3, 3, 0);
    assert_eq!(vec![3, 3, 3], per_second);
    assert_eq!(9, requests_number);
}

#[test]
fn with_increment() {
    let (per_second, requests_number) = drive(3, 3, 1);
    assert_eq!(vec![3, 4, 5], per_second);
    assert_eq!(12, requests_number);
}

#[test]
fn refused_load_is_invalid_load() {
    assert_eq!(Some(InvalidLoad), LoadSchedule::new(0, 0, 10).err());
}

#[test]
fn first_action_is_send_and_sent_starts_at_zero() {
    let schedule = LoadSchedule::new(1, 2, 50).unwrap();
    assert_eq!(0, schedule.sent());
    assert_eq!(Action::Send, schedule.next_action());
}

#[test]
fn single_second_does_not_grow() {
    let (per_second, total) = drive(1, 5, 100);
    assert_eq!(vec![5], per_second);
    assert_eq!(5, total);
}

#[test]
fn grow_carries_current_rate_and_increment() {
    let mut schedule = LoadSchedule::new(2, 2, 50).unwrap();
    schedule.record_sent();
    schedule.record_sent();
    assert_eq!(Action::EndSecond(2), schedule.next_action());
    schedule.end_second();
    assert_eq!(Action::Grow { rate: 2, increment: 50 }, schedule.next_action());
    schedule.set_rate(3);
    assert_eq!(Action::Send, schedule.next_action());
}
