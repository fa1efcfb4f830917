use rail_fence_cipher::RailFence;

#[test]
fn encode_three_rails_classic() {
    let fence = RailFence::new(3);
    assert_eq!(
        fence.encode("WEAREDISCOVEREDFLEEATONCE"),
        "WECRLTEERDSOEEFEAOCAIVDEN"
    );
}

#[test]
fn decode_three_rails_classic() {
    let fence = RailFence::new(3);
    assert_eq!(
        fence.decode("WECRLTEERDSOEEFEAOCAIVDEN"),
        "WEAREDISCOVEREDFLEEATONCE"
    );
}

#[test]
fn encode_four_rails() {
    let fence = RailFence::new(4);
    assert_eq!(fence.encode("RUSTISGREAT"), "RGUSRSIETTA");
}

#[test]
fn decode_four_rails() {
    let fence = RailFence::new(4);
    assert_eq!(fence.decode("RGUSRSIETTA"), "RUSTISGREAT");
}

#[test]
fn encode_two_rails() {
    let fence = RailFence::new(2);
    assert_eq!(fence.encode("HELLO"), "HLOEL");
}

#[test]
fn decode_two_rails() {
    let fence = RailFence::new(2);
    assert_eq!(fence.decode("HLOEL"), "HELLO");
}

#[test]
fn single_character_five_rails() {
    let fence = RailFence::new(5);
    assert_eq!(fence.encode("A"), "A");
    assert_eq!(fence.decode("A"), "A");
}

#[test]
fn round_trip_many_rail_counts() {
    let text = "THEQUICKBROWNFOXJUMPSOVERTHELAZYDOG";
    for rails in 1..=10u32 {
        let fence = RailFence::new(rails);
        let cipher = fence.encode(text);
        assert_eq!(fence.decode(&cipher), text);
    }
}

#[test]
fn round_trip_all_lengths() {
    let text = "ABCDEFGHIJKLMNOPQRSTUVWXYZ";
    for rails in 1..=6u32 {
        let fence = RailFence::new(rails);
        for len in 0..=text.len() {
            let part = &text[..len];
            let cipher = fence.encode(part);
            assert_eq!(fence.decode(&cipher), part);
        }
    }
}

#[test]
fn round_trip_unicode() {
    let text = "héllo wörld ☃ zigzag";
    for rails in 1..=7u32 {
        let fence = RailFence::new(rails);
        let cipher = fence.encode(text);
        assert_eq!(cipher.chars().count(), text.chars().count());
        assert_eq!(fence.decode(&cipher), text);
    }
}

#[test]
fn identity_on_single_rail() {
    let fence = RailFence::new(1);
    assert_eq!(fence.encode("NOTHING MOVES"), "NOTHING MOVES");
    assert_eq!(fence.decode("NOTHING MOVES"), "NOTHING MOVES");
}

#[test]
fn length_preserved() {
    let fence = RailFence::new(3);
    assert_eq!(fence.encode("SOMEWHATLONGERTEXT").chars().count(), 18);
    assert_eq!(fence.decode("SOMEWHATLONGERTEXT").chars().count(), 18);
}

#[test]
fn repeated_calls_agree() {
    let fence = RailFence::new(4);
    assert_eq!(fence.encode("DETERMINISM"), fence.encode("DETERMINISM"));
    assert_eq!(fence.decode("DETERMINISM"), fence.decode("DETERMINISM"));
}

#[test]
fn empty_input() {
    for rails in 1..=5u32 {
        let fence = RailFence::new(rails);
        assert_eq!(fence.encode(""), "");
        assert_eq!(fence.decode(""), "");
    }
}

#[test]
fn encode_scrambles_the_text() {
    let fence = RailFence::new(3);
    let cipher = fence.encode("ABCDEF");
    assert_eq!(cipher, "AEBDFC");
    assert_ne!(cipher, "ABCDEF");
}

#[test]
fn decode_arbitrary_text_keeps_length() {
    let fence = RailFence::new(3);
    let text = fence.decode("XYZZY");
    assert_eq!(text.chars().count(), 5);
}
