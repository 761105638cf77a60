use audio_fx::audio_sink::{
    client_ports_pattern, input_port_name, output_port_name, PortInfo, SinkType,
    INPUT_PORT_NAME_BASE, OUTPUT_PORT_NAME_BASE,
};
use std::collections::hash_map::DefaultHasher;
use std::hash::{Hash, Hasher};

#[test]
fn port_name_bases() {
    assert_eq!(INPUT_PORT_NAME_BASE, "input_port_");
    assert_eq!(OUTPUT_PORT_NAME_BASE, "output_port_");
}

#[test]
fn input_port_names_are_numbered() {
    assert_eq!(input_port_name(1), "input_port_1");
    assert_eq!(input_port_name(0), "input_port_0");
    assert_eq!(input_port_name(10), "input_port_10");
    assert_eq!(input_port_name(907), "input_port_907");
}

#[test]
fn output_port_names_are_numbered() {
    assert_eq!(output_port_name(1), "output_port_1");
    assert_eq!(output_port_name(42), "output_port_42");
}

#[test]
fn port_numbers_print_like_to_string() {
    for n in [0usize, 9, 10, 99, 100, 12345, usize::MAX] {
        assert_eq!(input_port_name(n), format!("input_port_{}", n));
        assert_eq!(output_port_name(n), format!("output_port_{}", n));
    }
}

#[test]
fn client_pattern_matches_all_ports() {
    assert_eq!(client_ports_pattern("aboba"), "aboba:.*");
    assert_eq!(client_ports_pattern(""), ":.*");
}

#[test]
fn port_info_names_follow_number() {
    let info = PortInfo::new(3, "channel");
    assert_eq!(info.number, 3);
    assert_eq!(info.input_port_name, "input_port_3");
    assert_eq!(info.output_port_name, "output_port_3");
    assert_eq!(info.channel, "channel");
}

#[test]
fn port_info_equality_is_by_number() {
    let a = PortInfo::new(2, 'a');
    let b = PortInfo {
        number: 2,
        input_port_name: String::from("other"),
        output_port_name: String::from("names"),
        channel: 'b',
    };
    let c = PortInfo::new(5, 'a');
    assert!(a == b);
    assert!(a != c);
}

fn hash_of<T: Hash>(value: &T) -> u64 {
    let mut hasher = DefaultHasher::new();
    value.hash(&mut hasher);
    hasher.finish()
}

#[test]
fn equal_port_infos_hash_alike() {
    let a = PortInfo::new(7, 1u8);
    let b = PortInfo {
        number: 7,
        input_port_name: String::new(),
        output_port_name: String::new(),
        channel: 2u8,
    };
    assert_eq!(hash_of(&a), hash_of(&b));
    assert_eq!(hash_of(&a), hash_of(&7usize));
}

#[test]
fn sink_types_exist() {
    let kinds = [SinkType::OneToOne, SinkType::AllToOne];
    assert!(matches!(kinds[0], SinkType::OneToOne));
    assert!(matches!(kinds[1], SinkType::AllToOne));
}

#[test]
fn every_channel_gets_its_own_port_names() {
    let mut names = std::collections::HashSet::new();
    for n in 0..200usize {
        assert!(names.insert(input_port_name(n)));
        assert!(names.insert(output_port_name(n)));
    }
    assert_eq!(names.len(), 400);
}

#[test]
fn port_info_carries_the_name_bases() {
    assert_eq!(PortInfo::<()>::INPUT_PORT_NAME_BASE, "input_port_");
    assert_eq!(PortInfo::<()>::OUTPUT_PORT_NAME_BASE, "output_port_");
}
