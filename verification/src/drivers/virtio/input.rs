//! Events of a virtio input device: their types, keys and key states, and
//! the setup decisions the driver takes before the device goes live.
use vstd::prelude::*;

use crate::drivers::virtio::Error as VirtioError;

verus! {

#[derive(Debug, Clone, Copy, PartialEq, Eq, Structural)]
pub enum Error {
    InvalidEventType(u16),
    InvalidKey(u16),
    InvalidKeyState(u32),
}

/// Index of the event queue.
pub const EVENTQ_IDX: u32 = 0;

/// Index of the status queue.
pub const STATUSQ_IDX: u32 = 1;

/// Entries of each queue.
pub const QUEUE_SIZE: usize = 16;

/// Bytes of each descriptor buffer.
pub const DESC_BUFFER_SIZE: usize = 32;

#[derive(Debug, Clone, Copy, PartialEq, Eq, Structural)]
pub enum EventType {
    Sync,
    Key,
    Rel,
    Abs,
    Msc,
    Sw,
    Led,
    Snd,
    Rep,
    Ff,
    Pwr,
    FfStatus,
}

/// The value that stands for each event type.
pub open spec fn event_type_code(t: EventType) -> u16 {
    match t {
        EventType::Sync => 0x00,
        EventType::Key => 0x01,
        EventType::Rel => 0x02,
        EventType::Abs => 0x03,
        EventType::Msc => 0x04,
        EventType::Sw => 0x05,
        EventType::Led => 0x11,
        EventType::Snd => 0x12,
        EventType::Rep => 0x14,
        EventType::Ff => 0x15,
        EventType::Pwr => 0x16,
        EventType::FfStatus => 0x17,
    }
}

pub open spec fn valid_event_type(v: u16) -> bool {
    v == 0x00 || v == 0x01 || v == 0x02 || v == 0x03 || v == 0x04 || v == 0x05 || v == 0x11 || v == 0x12 || v == 0x14 || v == 0x15 || v == 0x16 || v == 0x17
}

impl EventType {
    pub fn try_from(value: u16) -> (r: Result<EventType, Error>)
        ensures
            valid_event_type(value) <==> r is Ok,
            r matches Ok(t) ==> event_type_code(t) == value,
            r is Err ==> r == Err::<EventType, Error>(Error::InvalidEventType(value)),
    {
        match value {
            0x00 => Ok(EventType::Sync),
            0x01 => Ok(EventType::Key),
            0x02 => Ok(EventType::Rel),
            0x03 => Ok(EventType::Abs),
            0x04 => Ok(EventType::Msc),
            0x05 => Ok(EventType::Sw),
            0x11 => Ok(EventType::Led),
            0x12 => Ok(EventType::Snd),
            0x14 => Ok(EventType::Rep),
            0x15 => Ok(EventType::Ff),
            0x16 => Ok(EventType::Pwr),
            0x17 => Ok(EventType::FfStatus),
            _ => Err(Error::InvalidEventType(value)),
        }
    }
}

#[derive(Debug, Clone, Copy, PartialEq, Eq, Structural)]
pub enum Keys {
    Esc,
    Num1,
    Num2,
    Num3,
    Num4,
    Num5,
    Num6,
    Num7,
    Num8,
    Num9,
    Num0,
    Minus,
    Equal,
    Backspace,
    Tab,
    Q,
    W,
    E,
    R,
    T,
    Y,
    U,
    I,
    O,
    P,
    LeftBrace,
    RightBrace,
    Enter,
    LeftCtrl,
    A,
    S,
    D,
    F,
    G,
    H,
    J,
    K,
    L,
    Semicolon,
    Apostrophe,
    Grave,
    LeftShift,
    BackSlash,
    Z,
    X,
    C,
    V,
    B,
    N,
    M,
    Comma,
    Dot,
    Slash,
    RightShift,
    KpAsterisk,
    LeftAlt,
    Space,
    CapsLock,
    F1,
    F2,
    F3,
    F4,
    F5,
    F6,
    F7,
    F8,
    F9,
    F10,
    NumLock,
    ScrollLock,
    Kp7,
    Kp8,
    Kp9,
    KpMinus,
    Kp4,
    Kp5,
    Kp6,
    KpPlus,
    Kp1,
    Kp2,
    Kp3,
    Kp0,
    KpDot,
    Zenkakuhankaku,
    K102nd,
    F11,
    F12,
    Ro,
    Katakana,
    Hiragana,
    Henkan,
    Katakanahiragana,
    Muhenkan,
    Kpjpcomma,
    KpEnter,
    RightCtrl,
    KpSlash,
    Sysrq,
    RightAlt,
    LineFeed,
    Home,
    Up,
    PageUp,
    Left,
    Right,
    End,
    Down,
    PageDown,
    Insert,
    Delete,
    Macro,
    Mute,
    VolumeDown,
    VolumeUp,
    Power,
    KpEqual,
    KpPlusMinus,
    Pause,
    Scale,
    KpComma,
    Hangeul,
    Hanja,
    Yen,
    LeftMeta,
    RightMeta,
    Compose,
    Stop,
    Again,
    Props,
    Undo,
    Front,
    Copy,
    Open,
    Paste,
    Find,
    Cut,
    Help,
    Menu,
    Calc,
    SetUp,
    Sleep,
    WakeUp,
    File,
    SendFile,
    DeleteFile,
    Xfer,
    Prog1,
    Prog2,
    Www,
    MsDos,
    ScreenLock,
    RotateDisplay,
    CycleWindows,
    Mail,
    BookMarks,
    Computer,
    Back,
    Forward,
    CloseCd,
    EjectCd,
    EjectCloseCd,
    NextSong,
    PlayPause,
    PreviousSong,
    StopCd,
    Record,
    Rewind,
    Phone,
    Iso,
    Config,
    Homepage,
    Refresh,
    Exit,
    Move,
    Edit,
    ScrollUp,
    ScrollDown,
    KpLeftParen,
    KpRightParen,
    New,
    Redo,
    F13,
    F14,
    F15,
    F16,
    F17,
    F18,
    F19,
    F20,
    F21,
    F22,
    F23,
    F24,
    PlayCd,
    PauseCd,
    Prog3,
    Prog4,
    AllApplications,
    Suspend,
    Close,
    Play,
    FastForward,
    BassBoost,
    Print,
    Hp,
    Camera,
    Sound,
    Question,
    Email,
    Chat,
    Search,
    Connect,
    Finance,
    Sport,
    Shop,
    AltErase,
    Cancel,
    BrightnessDown,
    BrightnessUp,
    Media,
    SwitchVideoMode,
    KbdIllumToggle,
    KbdIllumDown,
    KbdIllumUp,
    Send,
    Reply,
    ForwardMail,
    Save,
    Documents,
    Battery,
    Bluetooth,
    Wlan,
    Uwb,
    Unknown,
    VideoNext,
    VideoPrev,
    BrightnessCycle,
    BrightnessAuto,
    DisplayOff,
    Wwan,
    RfKill,
    Micmute,
}

/// The key code of each key.
pub open spec fn key_code(k: Keys) -> u16 {
    match k {
        Keys::Esc => 1,
        Keys::Num1 => 2,
        Keys::Num2 => 3,
        Keys::Num3 => 4,
        Keys::Num4 => 5,
        Keys::Num5 => 6,
        Keys::Num6 => 7,
        Keys::Num7 => 8,
        Keys::Num8 => 9,
        Keys::Num9 => 10,
        Keys::Num0 => 11,
        Keys::Minus => 12,
        Keys::Equal => 13,
        Keys::Backspace => 14,
        Keys::Tab => 15,
        Keys::Q => 16,
        Keys::W => 17,
        Keys::E => 18,
        Keys::R => 19,
        Keys::T => 20,
        Keys::Y => 21,
        Keys::U => 22,
        Keys::I => 23,
        Keys::O => 24,
        Keys::P => 25,
        Keys::LeftBrace => 26,
        Keys::RightBrace => 27,
        Keys::Enter => 28,
        Keys::LeftCtrl => 29,
        Keys::A => 30,
        Keys::S => 31,
        Keys::D => 32,
        Keys::F => 33,
        Keys::G => 34,
        Keys::H => 35,
        Keys::J => 36,
        Keys::K => 37,
        Keys::L => 38,
        Keys::Semicolon => 39,
        Keys::Apostrophe => 40,
        Keys::Grave => 41,
        Keys::LeftShift => 42,
        Keys::BackSlash => 43,
        Keys::Z => 44,
        Keys::X => 45,
        Keys::C => 46,
        Keys::V => 47,
        Keys::B => 48,
        Keys::N => 49,
        Keys::M => 50,
        Keys::Comma => 51,
        Keys::Dot => 52,
        Keys::Slash => 53,
        Keys::RightShift => 54,
        Keys::KpAsterisk => 55,
        Keys::LeftAlt => 56,
        Keys::Space => 57,
        Keys::CapsLock => 58,
        Keys::F1 => 59,
        Keys::F2 => 60,
        Keys::F3 => 61,
        Keys::F4 => 62,
        Keys::F5 => 63,
        Keys::F6 => 64,
        Keys::F7 => 65,
        Keys::F8 => 66,
        Keys::F9 => 67,
        Keys::F10 => 68,
        Keys::NumLock => 69,
        Keys::ScrollLock => 70,
        Keys::Kp7 => 71,
        Keys::Kp8 => 72,
        Keys::Kp9 => 73,
        Keys::KpMinus => 74,
        Keys::Kp4 => 75,
        Keys::Kp5 => 76,
        Keys::Kp6 => 77,
        Keys::KpPlus => 78,
        Keys::Kp1 => 79,
        Keys::Kp2 => 80,
        Keys::Kp3 => 81,
        Keys::Kp0 => 82,
        Keys::KpDot => 83,
        Keys::Zenkakuhankaku => 85,
        Keys::K102nd => 86,
        Keys::F11 => 87,
        Keys::F12 => 88,
        Keys::Ro => 89,
        Keys::Katakana => 90,
        Keys::Hiragana => 91,
        Keys::Henkan => 92,
        Keys::Katakanahiragana => 93,
        Keys::Muhenkan => 94,
        Keys::Kpjpcomma => 95,
        Keys::KpEnter => 96,
        Keys::RightCtrl => 97,
        Keys::KpSlash => 98,
        Keys::Sysrq => 99,
        Keys::RightAlt => 100,
        Keys::LineFeed => 101,
        Keys::Home => 102,
        Keys::Up => 103,
        Keys::PageUp => 104,
        Keys::Left => 105,
        Keys::Right => 106,
        Keys::End => 107,
        Keys::Down => 108,
        Keys::PageDown => 109,
        Keys::Insert => 110,
        Keys::Delete => 111,
        Keys::Macro => 112,
        Keys::Mute => 113,
        Keys::VolumeDown => 114,
        Keys::VolumeUp => 115,
        Keys::Power => 116,
        Keys::KpEqual => 117,
        Keys::KpPlusMinus => 118,
        Keys::Pause => 119,
        Keys::Scale => 120,
        Keys::KpComma => 121,
        Keys::Hangeul => 122,
        Keys::Hanja => 123,
        Keys::Yen => 124,
        Keys::LeftMeta => 125,
        Keys::RightMeta => 126,
        Keys::Compose => 127,
        Keys::Stop => 128,
        Keys::Again => 129,
        Keys::Props => 130,
        Keys::Undo => 131,
        Keys::Front => 132,
        Keys::Copy => 133,
        Keys::Open => 134,
        Keys::Paste => 135,
        Keys::Find => 136,
        Keys::Cut => 137,
        Keys::Help => 138,
        Keys::Menu => 139,
        Keys::Calc => 140,
        Keys::SetUp => 141,
        Keys::Sleep => 142,
        Keys::WakeUp => 143,
        Keys::File => 144,
        Keys::SendFile => 145,
        Keys::DeleteFile => 146,
        Keys::Xfer => 147,
        Keys::Prog1 => 148,
        Keys::Prog2 => 149,
        Keys::Www => 150,
        Keys::MsDos => 151,
        Keys::ScreenLock => 152,
        Keys::RotateDisplay => 153,
        Keys::CycleWindows => 154,
        Keys::Mail => 155,
        Keys::BookMarks => 156,
        Keys::Computer => 157,
        Keys::Back => 158,
        Keys::Forward => 159,
        Keys::CloseCd => 160,
        Keys::EjectCd => 161,
        Keys::EjectCloseCd => 162,
        Keys::NextSong => 163,
        Keys::PlayPause => 164,
        Keys::PreviousSong => 165,
        Keys::StopCd => 166,
        Keys::Record => 167,
        Keys::Rewind => 168,
        Keys::Phone => 169,
        Keys::Iso => 170,
        Keys::Config => 171,
        Keys::Homepage => 172,
        Keys::Refresh => 173,
        Keys::Exit => 174,
        Keys::Move => 175,
        Keys::Edit => 176,
        Keys::ScrollUp => 177,
        Keys::ScrollDown => 178,
        Keys::KpLeftParen => 179,
        Keys::KpRightParen => 180,
        Keys::New => 181,
        Keys::Redo => 182,
        Keys::F13 => 183,
        Keys::F14 => 184,
        Keys::F15 => 185,
        Keys::F16 => 186,
        Keys::F17 => 187,
        Keys::F18 => 188,
        Keys::F19 => 189,
        Keys::F20 => 190,
        Keys::F21 => 191,
        Keys::F22 => 192,
        Keys::F23 => 193,
        Keys::F24 => 194,
        Keys::PlayCd => 200,
        Keys::PauseCd => 201,
        Keys::Prog3 => 202,
        Keys::Prog4 => 203,
        Keys::AllApplications => 204,
        Keys::Suspend => 205,
        Keys::Close => 206,
        Keys::Play => 207,
        Keys::FastForward => 208,
        Keys::BassBoost => 209,
        Keys::Print => 210,
        Keys::Hp => 211,
        Keys::Camera => 212,
        Keys::Sound => 213,
        Keys::Question => 214,
        Keys::Email => 215,
        Keys::Chat => 216,
        Keys::Search => 217,
        Keys::Connect => 218,
        Keys::Finance => 219,
        Keys::Sport => 220,
        Keys::Shop => 221,
        Keys::AltErase => 222,
        Keys::Cancel => 223,
        Keys::BrightnessDown => 224,
        Keys::BrightnessUp => 225,
        Keys::Media => 226,
        Keys::SwitchVideoMode => 227,
        Keys::KbdIllumToggle => 228,
        Keys::KbdIllumDown => 229,
        Keys::KbdIllumUp => 230,
        Keys::Send => 231,
        Keys::Reply => 232,
        Keys::ForwardMail => 233,
        Keys::Save => 234,
        Keys::Documents => 235,
        Keys::Battery => 236,
        Keys::Bluetooth => 237,
        Keys::Wlan => 238,
        Keys::Uwb => 239,
        Keys::Unknown => 240,
        Keys::VideoNext => 241,
        Keys::VideoPrev => 242,
        Keys::BrightnessCycle => 243,
        Keys::BrightnessAuto => 244,
        Keys::DisplayOff => 245,
        Keys::Wwan => 246,
        Keys::RfKill => 247,
        Keys::Micmute => 248,
    }
}

/// The codes that name a key: 1 to 83, 85 to 194 and 200 to 248.
pub open spec fn valid_key_code(v: u16) -> bool {
    (1 <= v <= 83) || (85 <= v <= 194) || (200 <= v <= 248)
}

impl Keys {
    #[verifier::rlimit(50)]
    pub fn try_from(value: u16) -> (r: Result<Keys, Error>)
        ensures
            valid_key_code(value) <==> r is Ok,
            r matches Ok(k) ==> key_code(k) == value,
            r is Err ==> r == Err::<Keys, Error>(Error::InvalidKey(value)),
    {
        match value {
            1 => Ok(Keys::Esc),
            2 => Ok(Keys::Num1),
            3 => Ok(Keys::Num2),
            4 => Ok(Keys::Num3),
            5 => Ok(Keys::Num4),
            6 => Ok(Keys::Num5),
            7 => Ok(Keys::Num6),
            8 => Ok(Keys::Num7),
            9 => Ok(Keys::Num8),
            10 => Ok(Keys::Num9),
            11 => Ok(Keys::Num0),
            12 => Ok(Keys::Minus),
            13 => Ok(Keys::Equal),
            14 => Ok(Keys::Backspace),
            15 => Ok(Keys::Tab),
            16 => Ok(Keys::Q),
            17 => Ok(Keys::W),
            18 => Ok(Keys::E),
            19 => Ok(Keys::R),
            20 => Ok(Keys::T),
            21 => Ok(Keys::Y),
            22 => Ok(Keys::U),
            23 => Ok(Keys::I),
            24 => Ok(Keys::O),
            25 => Ok(Keys::P),
            26 => Ok(Keys::LeftBrace),
            27 => Ok(Keys::RightBrace),
            28 => Ok(Keys::Enter),
            29 => Ok(Keys::LeftCtrl),
            30 => Ok(Keys::A),
            31 => Ok(Keys::S),
            32 => Ok(Keys::D),
            33 => Ok(Keys::F),
            34 => Ok(Keys::G),
            35 => Ok(Keys::H),
            36 => Ok(Keys::J),
            37 => Ok(Keys::K),
            38 => Ok(Keys::L),
            39 => Ok(Keys::Semicolon),
            40 => Ok(Keys::Apostrophe),
            41 => Ok(Keys::Grave),
            42 => Ok(Keys::LeftShift),
            43 => Ok(Keys::BackSlash),
            44 => Ok(Keys::Z),
            45 => Ok(Keys::X),
            46 => Ok(Keys::C),
            47 => Ok(Keys::V),
            48 => Ok(Keys::B),
            49 => Ok(Keys::N),
            50 => Ok(Keys::M),
            51 => Ok(Keys::Comma),
            52 => Ok(Keys::Dot),
            53 => Ok(Keys::Slash),
            54 => Ok(Keys::RightShift),
            55 => Ok(Keys::KpAsterisk),
            56 => Ok(Keys::LeftAlt),
            57 => Ok(Keys::Space),
            58 => Ok(Keys::CapsLock),
            59 => Ok(Keys::F1),
            60 => Ok(Keys::F2),
            61 => Ok(Keys::F3),
            62 => Ok(Keys::F4),
            63 => Ok(Keys::F5),
            64 => Ok(Keys::F6),
            65 => Ok(Keys::F7),
            66 => Ok(Keys::F8),
            67 => Ok(Keys::F9),
            68 => Ok(Keys::F10),
            69 => Ok(Keys::NumLock),
            70 => Ok(Keys::ScrollLock),
            71 => Ok(Keys::Kp7),
            72 => Ok(Keys::Kp8),
            73 => Ok(Keys::Kp9),
            74 => Ok(Keys::KpMinus),
            75 => Ok(Keys::Kp4),
            76 => Ok(Keys::Kp5),
            77 => Ok(Keys::Kp6),
            78 => Ok(Keys::KpPlus),
            79 => Ok(Keys::Kp1),
            80 => Ok(Keys::Kp2),
            81 => Ok(Keys::Kp3),
            82 => Ok(Keys::Kp0),
            83 => Ok(Keys::KpDot),
            85 => Ok(Keys::Zenkakuhankaku),
            86 => Ok(Keys::K102nd),
            87 => Ok(Keys::F11),
            88 => Ok(Keys::F12),
            89 => Ok(Keys::Ro),
            90 => Ok(Keys::Katakana),
            91 => Ok(Keys::Hiragana),
            92 => Ok(Keys::Henkan),
            93 => Ok(Keys::Katakanahiragana),
            94 => Ok(Keys::Muhenkan),
            95 => Ok(Keys::Kpjpcomma),
            96 => Ok(Keys::KpEnter),
            97 => Ok(Keys::RightCtrl),
            98 => Ok(Keys::KpSlash),
            99 => Ok(Keys::Sysrq),
            100 => Ok(Keys::RightAlt),
            101 => Ok(Keys::LineFeed),
            102 => Ok(Keys::Home),
            103 => Ok(Keys::Up),
            104 => Ok(Keys::PageUp),
            105 => Ok(Keys::Left),
            106 => Ok(Keys::Right),
            107 => Ok(Keys::End),
            108 => Ok(Keys::Down),
            109 => Ok(Keys::PageDown),
            110 => Ok(Keys::Insert),
            111 => Ok(Keys::Delete),
            112 => Ok(Keys::Macro),
            113 => Ok(Keys::Mute),
            114 => Ok(Keys::VolumeDown),
            115 => Ok(Keys::VolumeUp),
            116 => Ok(Keys::Power),
            117 => Ok(Keys::KpEqual),
            118 => Ok(Keys::KpPlusMinus),
            119 => Ok(Keys::Pause),
            120 => Ok(Keys::Scale),
            121 => Ok(Keys::KpComma),
            122 => Ok(Keys::Hangeul),
            123 => Ok(Keys::Hanja),
            124 => Ok(Keys::Yen),
            125 => Ok(Keys::LeftMeta),
            126 => Ok(Keys::RightMeta),
            127 => Ok(Keys::Compose),
            128 => Ok(Keys::Stop),
            129 => Ok(Keys::Again),
            130 => Ok(Keys::Props),
            131 => Ok(Keys::Undo),
            132 => Ok(Keys::Front),
            133 => Ok(Keys::Copy),
            134 => Ok(Keys::Open),
            135 => Ok(Keys::Paste),
            136 => Ok(Keys::Find),
            137 => Ok(Keys::Cut),
            138 => Ok(Keys::Help),
            139 => Ok(Keys::Menu),
            140 => Ok(Keys::Calc),
            141 => Ok(Keys::SetUp),
            142 => Ok(Keys::Sleep),
            143 => Ok(Keys::WakeUp),
            144 => Ok(Keys::File),
            145 => Ok(Keys::SendFile),
            146 => Ok(Keys::DeleteFile),
            147 => Ok(Keys::Xfer),
            148 => Ok(Keys::Prog1),
            149 => Ok(Keys::Prog2),
            150 => Ok(Keys::Www),
            151 => Ok(Keys::MsDos),
            152 => Ok(Keys::ScreenLock),
            153 => Ok(Keys::RotateDisplay),
            154 => Ok(Keys::CycleWindows),
            155 => Ok(Keys::Mail),
            156 => Ok(Keys::BookMarks),
            157 => Ok(Keys::Computer),
            158 => Ok(Keys::Back),
            159 => Ok(Keys::Forward),
            160 => Ok(Keys::CloseCd),
            161 => Ok(Keys::EjectCd),
            162 => Ok(Keys::EjectCloseCd),
            163 => Ok(Keys::NextSong),
            164 => Ok(Keys::PlayPause),
            165 => Ok(Keys::PreviousSong),
            166 => Ok(Keys::StopCd),
            167 => Ok(Keys::Record),
            168 => Ok(Keys::Rewind),
            169 => Ok(Keys::Phone),
            170 => Ok(Keys::Iso),
            171 => Ok(Keys::Config),
            172 => Ok(Keys::Homepage),
            173 => Ok(Keys::Refresh),
            174 => Ok(Keys::Exit),
            175 => Ok(Keys::Move),
            176 => Ok(Keys::Edit),
            177 => Ok(Keys::ScrollUp),
            178 => Ok(Keys::ScrollDown),
            179 => Ok(Keys::KpLeftParen),
            180 => Ok(Keys::KpRightParen),
            181 => Ok(Keys::New),
            182 => Ok(Keys::Redo),
            183 => Ok(Keys::F13),
            184 => Ok(Keys::F14),
            185 => Ok(Keys::F15),
            186 => Ok(Keys::F16),
            187 => Ok(Keys::F17),
            188 => Ok(Keys::F18),
            189 => Ok(Keys::F19),
            190 => Ok(Keys::F20),
            191 => Ok(Keys::F21),
            192 => Ok(Keys::F22),
            193 => Ok(Keys::F23),
            194 => Ok(Keys::F24),
            200 => Ok(Keys::PlayCd),
            201 => Ok(Keys::PauseCd),
            202 => Ok(Keys::Prog3),
            203 => Ok(Keys::Prog4),
            204 => Ok(Keys::AllApplications),
            205 => Ok(Keys::Suspend),
            206 => Ok(Keys::Close),
            207 => Ok(Keys::Play),
            208 => Ok(Keys::FastForward),
            209 => Ok(Keys::BassBoost),
            210 => Ok(Keys::Print),
            211 => Ok(Keys::Hp),
            212 => Ok(Keys::Camera),
            213 => Ok(Keys::Sound),
            214 => Ok(Keys::Question),
            215 => Ok(Keys::Email),
            216 => Ok(Keys::Chat),
            217 => Ok(Keys::Search),
            218 => Ok(Keys::Connect),
            219 => Ok(Keys::Finance),
            220 => Ok(Keys::Sport),
            221 => Ok(Keys::Shop),
            222 => Ok(Keys::AltErase),
            223 => Ok(Keys::Cancel),
            224 => Ok(Keys::BrightnessDown),
            225 => Ok(Keys::BrightnessUp),
            226 => Ok(Keys::Media),
            227 => Ok(Keys::SwitchVideoMode),
            228 => Ok(Keys::KbdIllumToggle),
            229 => Ok(Keys::KbdIllumDown),
            230 => Ok(Keys::KbdIllumUp),
            231 => Ok(Keys::Send),
            232 => Ok(Keys::Reply),
            233 => Ok(Keys::ForwardMail),
            234 => Ok(Keys::Save),
            235 => Ok(Keys::Documents),
            236 => Ok(Keys::Battery),
            237 => Ok(Keys::Bluetooth),
            238 => Ok(Keys::Wlan),
            239 => Ok(Keys::Uwb),
            240 => Ok(Keys::Unknown),
            241 => Ok(Keys::VideoNext),
            242 => Ok(Keys::VideoPrev),
            243 => Ok(Keys::BrightnessCycle),
            244 => Ok(Keys::BrightnessAuto),
            245 => Ok(Keys::DisplayOff),
            246 => Ok(Keys::Wwan),
            247 => Ok(Keys::RfKill),
            248 => Ok(Keys::Micmute),
            _ => Err(Error::InvalidKey(value)),
        }
    }
}

#[derive(Debug, Clone, Copy, PartialEq, Eq, Structural)]
pub enum KeyState {
    Pressed,
    Released,
}

impl KeyState {
    pub fn try_from(value: u32) -> (r: Result<KeyState, Error>)
        ensures
            value == 1 ==> r == Ok::<KeyState, Error>(KeyState::Pressed),
            value == 0 ==> r == Ok::<KeyState, Error>(KeyState::Released),
            value > 1 ==> r == Err::<KeyState, Error>(Error::InvalidKeyState(value)),
    {
        match value {
            1 => Ok(KeyState::Pressed),
            0 => Ok(KeyState::Released),
            _ => Err(Error::InvalidKeyState(value)),
        }
    }
}

/// A key event.
#[derive(Debug, Clone, Copy, PartialEq, Eq, Structural)]
pub struct Event {
    pub ty: EventType,
    pub key: Keys,
    pub state: KeyState,
}

/// A little-endian 16-bit value.
pub open spec fn le16(b0: u8, b1: u8) -> int {
    b0 + b1 * 0x100
}

/// A little-endian 32-bit value.
pub open spec fn le32(b0: u8, b1: u8, b2: u8, b3: u8) -> int {
    b0 + b1 * 0x100 + b2 * 0x1_0000 + b3 * 0x100_0000
}

/// Reads an input event buffer (type, code, value, little endian). Key
/// events are kept; synchronisation events, other event types and values
/// that name no type, key or state are dropped.
pub fn decode_event(data: &[u8]) -> (event: Option<Event>)
    requires
        data@.len() >= 8,
    ensures
        ({
            let d = data@;
            let ty = le16(d[0], d[1]);
            let key = le16(d[2], d[3]);
            let value = le32(d[4], d[5], d[6], d[7]);
            &&& event is Some <==> (ty == 1 && valid_key_code(key as u16) && (value == 0 || value == 1))
            &&& event matches Some(e) ==> {
                &&& e.ty == EventType::Key
                &&& key_code(e.key) == key
                &&& e.state == (if value == 1 { KeyState::Pressed } else { KeyState::Released })
            }
        }),
{
    let event_type = (data[0] as u16) + (data[1] as u16) * 0x100;
    let ty = match EventType::try_from(event_type) {
        Ok(EventType::Key) => EventType::Key,
        _ => {
            return None;
        },
    };
    let key_type = (data[2] as u16) + (data[3] as u16) * 0x100;
    let key = match Keys::try_from(key_type) {
        Ok(key) => key,
        Err(_) => {
            return None;
        },
    };
    let key_state = (data[4] as u32) + (data[5] as u32) * 0x100 + (data[6] as u32) * 0x1_0000
        + (data[7] as u32) * 0x100_0000;
    let state = match KeyState::try_from(key_state) {
        Ok(state) => state,
        Err(_) => {
            return None;
        },
    };
    Some(Event { ty, key, state })
}

/// Bit of the first feature word: the ring event index.
pub open spec fn ring_event_idx(word0: u32) -> bool {
    (word0 >> 29u32) & 1 == 1
}

/// Bit of the second feature word: compliance with version 1.
pub open spec fn version_1(word1: u32) -> bool {
    word1 & 1 == 1
}

/// The driver's answer to the device's two feature words: the device must
/// offer the ring event index and version 1. The driver then takes only
/// version 1: its first word is all clear, its second has just that bit.
pub fn negotiate_feature_bits(word0: u32, word1: u32) -> (result: Result<(u32, u32), VirtioError>)
    ensures
        !ring_event_idx(word0) ==> result matches Err(VirtioError::InvalidFeatures),
        ring_event_idx(word0) && !version_1(word1) ==> result matches Err(VirtioError::InvalidFeatures),
        ring_event_idx(word0) && version_1(word1) ==> (result matches Ok(w) && w == (0u32, 1u32)),
{
    assert(((word0 >> 29u32) & 1 == 0) || ((word0 >> 29u32) & 1 == 1)) by (bit_vector);
    assert((word1 & 1 == 0) || (word1 & 1 == 1)) by (bit_vector);
    if (word0 >> 29u32) & 1 == 0 {
        return Err(VirtioError::InvalidFeatures);
    }
    if word1 & 1 == 0 {
        return Err(VirtioError::InvalidFeatures);
    }
    Ok((0, 1))
}

/// Checks the status register read back after the driver set "features
/// ok": the device keeps the bit only when it accepts the features.
pub fn features_accepted(status: u32) -> (result: Result<(), VirtioError>)
    ensures
        (status >> 3u32) & 1 == 1 <==> result is Ok,
        result is Err ==> result matches Err(VirtioError::InvalidFeatures),
{
    assert(((status >> 3u32) & 1 == 0) || ((status >> 3u32) & 1 == 1)) by (bit_vector);
    if (status >> 3u32) & 1 == 0 {
        return Err(VirtioError::InvalidFeatures);
    }
    Ok(())
}

/// Checks that a queue of `QUEUE_SIZE` entries fits the device's maximum.
pub fn check_queue_size(queue_num_max: u32) -> (result: Result<(), VirtioError>)
    ensures
        QUEUE_SIZE <= queue_num_max <==> result is Ok,
        result is Err ==> result matches Err(VirtioError::DeviceSpecificError),
{
    if QUEUE_SIZE > queue_num_max as usize {
        return Err(VirtioError::DeviceSpecificError);
    }
    Ok(())
}


/// Where the bring-up of an input device stands.
#[derive(Debug, Clone, Copy, PartialEq, Eq, Structural)]
pub enum ProbeState {
    /// Nothing done yet.
    Start,
    /// Waiting for the first feature word of the device.
    AwaitFeatures0,
    /// Waiting for the second feature word; the first one was this.
    AwaitFeatures1(u32),
    /// Waiting for the status read back after "features ok".
    AwaitFeaturesOk,
    /// Waiting for the largest size of the event queue.
    AwaitEventqMax,
    /// Waiting for the largest size of the status queue.
    AwaitStatusqMax,
    /// The device is live.
    Live,
    /// The device was marked failed.
    Failed,
}

/// What the device answered: a register value that was read.
#[derive(Debug, Clone, Copy, PartialEq, Eq, Structural)]
pub enum ProbeEvent {
    /// The bring-up begins.
    Begin,
    /// The value read from the register the last action asked for.
    Read(u32),
}

/// What the driver does next on the device's registers.
#[derive(Debug)]
pub enum ProbeAction {
    /// Set the "acknowledge" and "driver" status bits, select feature word 0
    /// and read it.
    AcknowledgeAndReadFeatures0,
    /// Select feature word 1 and read it.
    ReadFeatures1,
    /// Write these two driver feature words, set "features ok" and read the
    /// status back.
    WriteFeatures(u32, u32),
    /// Select the event queue and read its largest size.
    ReadEventqMax,
    /// Set up the event queue with `QUEUE_SIZE` entries and make it ready,
    /// then select the status queue and read its largest size.
    ConfigureEventqReadStatusqMax,
    /// Set up the status queue, post `QUEUE_SIZE` buffers on both queues,
    /// notify both and set "driver ok".
    ConfigureStatusqGoLive,
    /// Set the "failed" status bit and give up with this error.
    Fail(VirtioError),
    /// Nothing: the event does not belong to this state.
    Nothing,
}

/// The bring-up step: from the state and what the device answered, the next
/// state and what to do on the device.
pub open spec fn probe_transition(state: ProbeState, event: ProbeEvent) -> (ProbeState, ProbeAction) {
    match (state, event) {
        (ProbeState::Start, ProbeEvent::Begin) => (ProbeState::AwaitFeatures0, ProbeAction::AcknowledgeAndReadFeatures0),
        (ProbeState::AwaitFeatures0, ProbeEvent::Read(w0)) => if ring_event_idx(w0) {
            (ProbeState::AwaitFeatures1(w0), ProbeAction::ReadFeatures1)
        } else {
            (ProbeState::Failed, ProbeAction::Fail(VirtioError::InvalidFeatures))
        },
        (ProbeState::AwaitFeatures1(w0), ProbeEvent::Read(w1)) => if ring_event_idx(w0) && version_1(w1) {
            (ProbeState::AwaitFeaturesOk, ProbeAction::WriteFeatures(0, 1))
        } else {
            (ProbeState::Failed, ProbeAction::Fail(VirtioError::InvalidFeatures))
        },
        (ProbeState::AwaitFeaturesOk, ProbeEvent::Read(status)) => if (status >> 3u32) & 1 == 1 {
            (ProbeState::AwaitEventqMax, ProbeAction::ReadEventqMax)
        } else {
            (ProbeState::Failed, ProbeAction::Fail(VirtioError::InvalidFeatures))
        },
        (ProbeState::AwaitEventqMax, ProbeEvent::Read(max)) => if QUEUE_SIZE <= max {
            (ProbeState::AwaitStatusqMax, ProbeAction::ConfigureEventqReadStatusqMax)
        } else {
            (ProbeState::Failed, ProbeAction::Fail(VirtioError::DeviceSpecificError))
        },
        (ProbeState::AwaitStatusqMax, ProbeEvent::Read(max)) => if QUEUE_SIZE <= max {
            (ProbeState::Live, ProbeAction::ConfigureStatusqGoLive)
        } else {
            (ProbeState::Failed, ProbeAction::Fail(VirtioError::DeviceSpecificError))
        },
        _ => (state, ProbeAction::Nothing),
    }
}

/// One step of bringing up an input device.
pub fn probe_step(state: ProbeState, event: ProbeEvent) -> (next: (ProbeState, ProbeAction))
    ensures
        next == probe_transition(state, event),
{
    match (state, event) {
        (ProbeState::Start, ProbeEvent::Begin) => (ProbeState::AwaitFeatures0, ProbeAction::AcknowledgeAndReadFeatures0),
        (ProbeState::AwaitFeatures0, ProbeEvent::Read(w0)) => {
            assert(((w0 >> 29u32) & 1 == 0) || ((w0 >> 29u32) & 1 == 1)) by (bit_vector);
            if (w0 >> 29u32) & 1 == 1 {
                (ProbeState::AwaitFeatures1(w0), ProbeAction::ReadFeatures1)
            } else {
                (ProbeState::Failed, ProbeAction::Fail(VirtioError::InvalidFeatures))
            }
        },
        (ProbeState::AwaitFeatures1(w0), ProbeEvent::Read(w1)) => match negotiate_feature_bits(w0, w1) {
            Ok((d0, d1)) => (ProbeState::AwaitFeaturesOk, ProbeAction::WriteFeatures(d0, d1)),
            Err(e) => (ProbeState::Failed, ProbeAction::Fail(e)),
        },
        (ProbeState::AwaitFeaturesOk, ProbeEvent::Read(status)) => match features_accepted(status) {
            Ok(()) => (ProbeState::AwaitEventqMax, ProbeAction::ReadEventqMax),
            Err(e) => (ProbeState::Failed, ProbeAction::Fail(e)),
        },
        (ProbeState::AwaitEventqMax, ProbeEvent::Read(max)) => match check_queue_size(max) {
            Ok(()) => (ProbeState::AwaitStatusqMax, ProbeAction::ConfigureEventqReadStatusqMax),
            Err(e) => (ProbeState::Failed, ProbeAction::Fail(e)),
        },
        (ProbeState::AwaitStatusqMax, ProbeEvent::Read(max)) => match check_queue_size(max) {
            Ok(()) => (ProbeState::Live, ProbeAction::ConfigureStatusqGoLive),
            Err(e) => (ProbeState::Failed, ProbeAction::Fail(e)),
        },
        _ => (state, ProbeAction::Nothing),
    }
}

} // verus!
