use ai::bitstring::Bitstring;
use ai::environment::EnvironmentInfo;
use ai::percept_code::{
    action_bits, decode_percept, encode_action, encode_percept, percept_bits, read_number,
    reward_bits, width_of, write_number, OBSERVATION_BITS,
};
use ai::types::{Action, Observation, Percept, SingleReward};

fn info_of(num_actions: i16, min_reward: i16, max_reward: i16) -> EnvironmentInfo {
    EnvironmentInfo::new(num_actions, SingleReward(min_reward), SingleReward(max_reward))
}

#[test]
fn numbers_are_written_in_a_fixed_width() {
    assert_eq!("", write_number(5, 0).to_string());
    assert_eq!("101", write_number(5, 3).to_string());
    assert_eq!("000101", write_number(5, 6).to_string());
    // Digits beyond the width are left out.
    assert_eq!("01", write_number(5, 2).to_string());
    assert_eq!("1".repeat(64), write_number(u64::MAX, 64).to_string());
    assert_eq!(format!("00{}", "1".repeat(64)), write_number(u64::MAX, 66).to_string());
}

#[test]
fn numbers_are_read_from_a_range_of_bits() {
    let bits = Bitstring::create_from_string("1101001").unwrap();
    assert_eq!(0b1101001, read_number(&bits, 0, 7));
    assert_eq!(0b101, read_number(&bits, 1, 4));
    assert_eq!(0, read_number(&bits, 3, 3));
    assert_eq!(1, read_number(&bits, 6, 7));
    let all = Bitstring::create_from_string(&"1".repeat(64)).unwrap();
    assert_eq!(u64::MAX, read_number(&all, 0, 64));
}

#[test]
fn numbers_round_trip() {
    for value in [0, 1, 2, 7, 8, 255, 65535, 1 << 40] {
        for width in [41, 50, 64] {
            assert_eq!(value, read_number(&write_number(value, width), 0, width));
        }
    }
}

#[test]
fn widths_are_the_shortest() {
    assert_eq!(1, width_of(0));
    assert_eq!(1, width_of(1));
    assert_eq!(2, width_of(2));
    assert_eq!(2, width_of(3));
    assert_eq!(3, width_of(4));
    assert_eq!(16, width_of(65535));
    assert_eq!(64, width_of(u64::MAX));
}

#[test]
fn widths_go_by_the_environment() {
    let coin = info_of(2, 0, 1);
    assert_eq!(1, action_bits(&coin));
    assert_eq!(1, reward_bits(&coin));
    assert_eq!(17, percept_bits(&coin));
    assert_eq!(16, OBSERVATION_BITS);

    let wider = info_of(10, -3, 7);
    assert_eq!(4, action_bits(&wider));
    assert_eq!(4, reward_bits(&wider));
    assert_eq!(20, percept_bits(&wider));

    assert_eq!(1, action_bits(&info_of(1, 0, 0)));
    assert_eq!(1, reward_bits(&info_of(1, 4, 4)));
    assert_eq!(16, reward_bits(&info_of(1, i16::MIN, i16::MAX)));
    assert_eq!(15, action_bits(&info_of(i16::MAX, 0, 0)));
}

#[test]
fn actions_are_written_as_numbers() {
    let wider = info_of(10, -3, 7);
    assert_eq!("0000", encode_action(Action(0), &wider).to_string());
    assert_eq!("1001", encode_action(Action(9), &wider).to_string());
    assert_eq!("1", encode_action(Action(1), &info_of(2, 0, 1)).to_string());
}

#[test]
fn percepts_are_written_above_the_least() {
    let wider = info_of(10, -3, 7);
    let code = encode_percept(Percept(Observation(1), SingleReward(2)), &wider);
    // 1 is 32769 above the least observation, and 2 is 5 above -3.
    assert_eq!("10000000000000010101", code.to_string());
    let least = encode_percept(Percept(Observation(i16::MIN), SingleReward(-3)), &wider);
    assert_eq!("0".repeat(20), least.to_string());
}

#[test]
fn percepts_round_trip() {
    let wider = info_of(10, -3, 7);
    for observation in [i16::MIN, -1, 0, 1, 77, i16::MAX] {
        for reward in [-3, 0, 7] {
            let percept = Percept(Observation(observation), SingleReward(reward));
            assert_eq!(percept, decode_percept(&encode_percept(percept, &wider), &wider));
        }
    }
    let widest = info_of(1, i16::MIN, i16::MAX);
    for reward in [i16::MIN, 0, i16::MAX] {
        let percept = Percept(Observation(5), SingleReward(reward));
        assert_eq!(percept, decode_percept(&encode_percept(percept, &widest), &widest));
    }
}

#[test]
fn rewards_beyond_the_band_read_as_the_greatest() {
    let wider = info_of(10, -3, 7);
    // Four reward bits can say 15 above the least; the band ends at 10 above.
    let bits = Bitstring::create_from_string("10000000000000001111").unwrap();
    assert_eq!(Percept(Observation(0), SingleReward(7)), decode_percept(&bits, &wider));
    let at_the_end = Bitstring::create_from_string("10000000000000001010").unwrap();
    assert_eq!(Percept(Observation(0), SingleReward(7)), decode_percept(&at_the_end, &wider));
    let beyond = Bitstring::create_from_string("10000000000000001011").unwrap();
    assert_eq!(Percept(Observation(0), SingleReward(7)), decode_percept(&beyond, &wider));
}
