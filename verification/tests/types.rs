use packet_codec::datatypes::sized::SizedVec;
use packet_codec::decoding::DecodingError;
use packet_codec::datatypes::strings::{check_text, same_text};
use packet_codec::encoding::EncodingError;
use packet_codec::types::{ClientState, PacketDirection, PacketMacroData, PacketState};

#[test]
fn states_have_their_names() {
    let all = [
        (ClientState::Status, "Status"),
        (ClientState::Handshake, "Handshake"),
        (ClientState::Login, "Login"),
        (ClientState::Play, "Play"),
    ];
    for (state, name) in all {
        assert_eq!(state.to_string(), name);
        assert_eq!(ClientState::from_str(name), Ok(state));
        assert_eq!(ClientState::from_str(&state.to_string()), Ok(state));
    }
    assert_eq!(PacketState::from_str("Play"), Ok(PacketState::Play));
}

#[test]
fn states_follow_the_life_of_a_connection() {
    let all = [
        ClientState::Handshake,
        ClientState::Status,
        ClientState::Login,
        ClientState::Play,
    ];
    assert_eq!(ClientState::initial(), ClientState::Handshake);
    for from in all {
        for to in all {
            let expected = matches!(
                (from, to),
                (ClientState::Handshake, ClientState::Status)
                    | (ClientState::Handshake, ClientState::Login)
                    | (ClientState::Login, ClientState::Play)
            );
            assert_eq!(from.can_become(to), expected, "{:?} to {:?}", from, to);
        }
    }
}

#[test]
fn directions_have_their_names() {
    for (direction, name) in [
        (PacketDirection::Clientbound, "Clientbound"),
        (PacketDirection::Serverbound, "Serverbound"),
    ] {
        assert_eq!(direction.to_string(), name);
        assert_eq!(PacketDirection::from_str(name), Ok(direction));
    }
}

#[test]
fn other_names_are_refused() {
    for name in ["", "play", "PLAY", "Play ", " Play", "Pla", "Playy", "Clientbound"] {
        assert_eq!(
            ClientState::from_str(name),
            Err(DecodingError::UnsupportedDiscriminant),
            "name {:?}",
            name
        );
    }
    for name in ["", "clientbound", "Client", "Status", "Serverbound\n"] {
        assert_eq!(
            PacketDirection::from_str(name),
            Err(DecodingError::UnsupportedDiscriminant),
            "name {:?}",
            name
        );
    }
}

#[test]
fn texts_are_compared_character_by_character() {
    assert!(same_text("", ""));
    assert!(same_text("Größe", "Größe"));
    assert!(!same_text("Größe", "Grösse"));
    assert!(!same_text("ab", "abc"));
    assert!(!same_text("abc", "abd"));
    assert_eq!(check_text(&"é".repeat(127)), Ok(()));
    assert_eq!(check_text(&"é".repeat(128)), Err(EncodingError::StringTooLong));
}

#[test]
fn sized_vec_keeps_its_elements() {
    let empty: SizedVec<u8, 4> = SizedVec::new();
    assert_eq!(empty.inner, Vec::<u8>::new());
    assert_eq!(empty.get_size(), 4);
    assert!(empty.inner.capacity() >= 4);
    assert_eq!(empty.iter().count(), 0);
    let filled: SizedVec<i32, 2> = SizedVec::from_vec(vec![3, 1, 2]);
    assert_eq!(filled.inner, vec![3, 1, 2]);
    assert_eq!(filled.get_size(), 2);
    assert_eq!(filled.iter().copied().collect::<Vec<i32>>(), vec![3, 1, 2]);
    assert_eq!(filled, SizedVec::<i32, 2> { inner: vec![3, 1, 2] });
    let converted: SizedVec<i32, 2> = vec![3, 1, 2].into();
    assert_eq!(converted, filled);
    assert_eq!(SizedVec::<i32, 8>::from(vec![5]).inner, vec![5]);
}

#[test]
fn rows_of_the_packet_table_hold_three_items() {
    let row = PacketMacroData {
        variant: String::from("PingResponseType"),
        id: String::from("0x01"),
        packet: String::from("PingResponse"),
    };
    assert_eq!(row.clone(), row);
    assert_eq!(row.id, "0x01");
}
