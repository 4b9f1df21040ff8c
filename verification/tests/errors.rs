use linux_legion::spectrum::device::{Error, Keyboard, Result, Transport, QUERY_WAITS};
use linux_legion::spectrum::protocol::op;
use linux_legion::spectrum::protocol::{encode_effects, Effect, EffectType, EncodeError, Packet, REPORT_LEN};

/// A transport that answers every read with the same report and records
/// the packets written and the pauses asked for.
struct Scripted {
    answer: Packet,
    fail_writes: bool,
    sent: Vec<Packet>,
    pauses: Vec<u64>,
}

impl Scripted {
    fn answering(op: u8, b4: u8) -> Scripted {
        let mut answer = [0u8; REPORT_LEN];
        answer[0] = 0x07;
        answer[1] = op;
        answer[4] = b4;
        Scripted { answer, fail_writes: false, sent: Vec::new(), pauses: Vec::new() }
    }
}

impl Transport for Scripted {
    fn set_feature(&mut self, pkt: &Packet) -> Result<()> {
        if self.fail_writes {
            return Err(Error::NotFound);
        }
        self.sent.push(*pkt);
        Ok(())
    }

    fn get_feature(&mut self) -> Result<Packet> {
        Ok(self.answer)
    }

    fn name(&self) -> String {
        "scripted".to_string()
    }

    fn pause(&mut self, ms: u64) {
        self.pauses.push(ms);
    }
}

#[test]
fn incompatible_controller_is_refused() {
    match Keyboard::connect(Scripted::answering(op::COMPATIBILITY, 5)) {
        Err((t, Error::Protocol(m))) => {
            assert_eq!(m, "контроллер несовместим (код 5)");
            // the transport comes back, with the one compatibility request it got
            assert_eq!(t.sent.len(), 1);
            assert_eq!(t.sent[0][1], op::COMPATIBILITY);
        },
        _ => panic!("an incompatible controller was accepted"),
    }
}

#[test]
fn compatible_controller_connects_and_names_its_transport() {
    let kb = Keyboard::connect(Scripted::answering(op::COMPATIBILITY, 0)).map_err(|(_, e)| e).unwrap();
    assert_eq!(kb.name(), "scripted");
}

#[test]
fn unanswered_request_fails_after_its_tries() {
    let mut kb = match Keyboard::connect(Scripted::answering(op::COMPATIBILITY, 0)) {
        Ok(kb) => kb,
        Err(_) => panic!("no connection"),
    };
    // every read gives the compatibility answer, never the profile
    match kb.profile() {
        Err(Error::Protocol(m)) => assert_eq!(m, "контроллер не ответил на запрос 0xCA"),
        _ => panic!("a wrong answer was accepted"),
    }
    // a transport that only ever gives lighting frames
    match Keyboard::connect(Scripted::answering(0x03, 0)) {
        Err((_, Error::Protocol(m))) => assert_eq!(m, "контроллер не ответил на запрос 0xD1"),
        _ => panic!("a frame was taken for an answer"),
    }
    assert_eq!(QUERY_WAITS, [20, 60, 100, 150, 250]);
}

#[test]
fn write_failure_reaches_the_caller() {
    let mut t = Scripted::answering(op::COMPATIBILITY, 0);
    t.fail_writes = true;
    assert!(matches!(Keyboard::connect(t), Err((_, Error::NotFound))));
}

#[test]
fn error_messages() {
    assert_eq!(Error::NotFound.message(), "контроллер подсветки Spectrum не найден");
    assert_eq!(Error::Permission("/dev/hidraw3".to_string()).message(), "нет доступа к /dev/hidraw3 — установите udev-правило");
    assert_eq!(Error::Protocol("x".to_string()).message(), "x");
    let io = std::io::Error::new(std::io::ErrorKind::Other, "boom");
    assert_eq!(Error::Io(io).message(), "ошибка ввода-вывода: boom");
}

#[test]
fn encode_errors_and_their_messages() {
    let keys: Vec<u16> = (1..=256).collect();
    let e = encode_effects(1, &[Effect::new(EffectType::Rain, keys)]);
    assert!(matches!(e, Err(EncodeError::TooManyItems)));
    assert_eq!(EncodeError::TooManyItems.message(), "в слое больше 255 зон или цветов");
    assert_eq!(EncodeError::TooLarge(1234).message(), "описание профиля занимает 1234 байт из 960 — уменьшите число слоёв");
}
