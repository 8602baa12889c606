//! Interrupt vectors, and what a key that the keyboard sent does to the screen.

use crate::vga_buffer::{Screen, Writer};
use pc_keyboard::layouts::Us104Key;
use pc_keyboard::{DecodedKey, HandleControl, KeyCode, KeyEvent, Keyboard, ScancodeSet1};
use vstd::prelude::*;

verus! {

/// The vector of the first interrupt of the first interrupt controller.
pub const PIC_1_OFFSET: u8 = 32;

/// The vector of the first interrupt of the second interrupt controller.
pub const PIC_2_OFFSET: u8 = PIC_1_OFFSET + 8;

/// The hardware interrupts that the kernel handles.
#[derive(Debug, Clone, Copy, PartialEq, Eq, Structural)]
pub enum InterruptIndex {
    /// The timer: the first line of the first controller.
    Timer,
    /// The keyboard: the line after the timer's.
    Keyboard,
}

impl InterruptIndex {
    /// The interrupt vector.
    pub open spec fn vector(self) -> u8 {
        match self {
            InterruptIndex::Timer => PIC_1_OFFSET,
            InterruptIndex::Keyboard => (PIC_1_OFFSET + 1) as u8,
        }
    }

    /// The interrupt vector.
    pub fn as_u8(self) -> (r: u8)
        ensures
            r == self.vector(),
    {
        match self {
            InterruptIndex::Timer => PIC_1_OFFSET,
            InterruptIndex::Keyboard => PIC_1_OFFSET + 1,
        }
    }
}

/// The decoder of the bytes that the keyboard sends: a
/// `pc_keyboard::Keyboard` for the US layout with 104 keys and scancode set 1.
/// Nothing is known of what it holds.
#[verifier::external_body]
pub struct KeyboardDecoder {
    inner: Keyboard<Us104Key, ScancodeSet1>,
}

/// `pc_keyboard::KeyEvent`: a key, and whether it went down or up. An event
/// is carried from the decoder's first step to its second and is never
/// looked into.
#[verifier::external_type_specification]
#[verifier::external_body]
pub struct ExKeyEvent(KeyEvent);

/// A key as the kernel tells keys apart.
#[derive(Debug, Clone, Copy, PartialEq, Eq)]
pub enum KeyInput {
    /// A key with a character.
    Unicode(char),
    /// The backspace key, where it comes without a character.
    Backspace,
    /// One of the two control keys.
    Control,
    /// Any other key without a character.
    Other,
}

/// A decoder that has seen no byte, and that leaves the letters as they are
/// while a control key is held.
///
/// Calls `pc_keyboard::Keyboard::new` with a new `pc_keyboard::ScancodeSet1`,
/// the layout `pc_keyboard::layouts::Us104Key` and
/// `pc_keyboard::HandleControl::Ignore`. Nothing is promised of the result.
#[verifier::external_body]
fn new_keyboard() -> (r: KeyboardDecoder) {
    KeyboardDecoder { inner: Keyboard::new(ScancodeSet1::new(), Us104Key, HandleControl::Ignore) }
}

impl KeyboardDecoder {
    /// A decoder that has seen no byte.
    pub fn new() -> (r: Self) {
        new_keyboard()
    }
}

/// Feeds a byte that the keyboard sent to the decoder, and gives the key
/// event that the byte completes, if it completes one.
///
/// Calls `pc_keyboard::Keyboard::add_byte`. What comes back depends on the
/// bytes that the decoder has seen before, so nothing is promised of it. A
/// byte that the decoder refuses gives `None`, as a byte that completes no
/// event does.
#[verifier::external_body]
fn add_byte(keyboard: &mut KeyboardDecoder, scancode: u8) -> (event: Option<KeyEvent>) {
    match keyboard.inner.add_byte(scancode) {
        Ok(event) => event,
        Err(_) => None,
    }
}

/// Turns a key event into a key, if the event gives one.
///
/// Calls `pc_keyboard::Keyboard::process_keyevent`. What comes back depends
/// on the modifier keys that are held, so nothing is promised of it. The
/// key is told apart by the variant of `pc_keyboard::DecodedKey`, and for a
/// key without a character by the variant of `pc_keyboard::KeyCode`.
#[verifier::external_body]
fn process_keyevent(keyboard: &mut KeyboardDecoder, event: KeyEvent) -> (key: Option<KeyInput>) {
    match keyboard.inner.process_keyevent(event) {
        Some(DecodedKey::Unicode(character)) => Some(KeyInput::Unicode(character)),
        Some(DecodedKey::RawKey(KeyCode::Backspace)) => Some(KeyInput::Backspace),
        Some(DecodedKey::RawKey(KeyCode::LControl)) => Some(KeyInput::Control),
        Some(DecodedKey::RawKey(KeyCode::RControl)) => Some(KeyInput::Control),
        Some(DecodedKey::RawKey(_)) => Some(KeyInput::Other),
        None => None,
    }
}

/// The ASCII backspace.
pub const BACKSPACE: u8 = 0x08;

/// The ASCII caret, which is printed for a control key.
pub const CARET: u8 = 0x5e;

/// Whether the character counts as a backspace: its number ends in the
/// byte `BACKSPACE`.
pub open spec fn is_backspace(character: char) -> bool {
    (character as u32) % 256 == BACKSPACE
}

/// The screen after `character` is printed: the low byte of its number is
/// written as it is, so that a tab is four spaces and a newline scrolls.
pub open spec fn print_char(screen: Screen, character: char) -> Screen {
    screen.write_char(character)
}

/// The screen after the key `key`: a backspace takes the last cell back, a
/// character is printed, a control key prints a caret, and any other key
/// does nothing.
pub open spec fn key_effect(screen: Screen, key: KeyInput) -> Screen {
    match key {
        KeyInput::Unicode(character) => if is_backspace(character) {
            screen.backspace()
        } else {
            print_char(screen, character)
        },
        KeyInput::Backspace => screen.backspace(),
        KeyInput::Control => screen.write_byte(CARET),
        KeyInput::Other => screen,
    }
}

/// Does to the screen what the key `key` asks for.
pub fn apply_key(writer: &mut Writer, key: KeyInput)
    requires
        old(writer).wf(),
    ensures
        final(writer).wf(),
        final(writer)@ == key_effect(old(writer)@, key),
{
    match key {
        KeyInput::Unicode(character) => {
            let number: u32 = character as u32;
            if number % 256 == 8 {
                // input := <backspace>
                writer.enforce_backspace();
            } else {
                // input := unicode_char
                writer.write_char(character);
            }
        },
        KeyInput::Backspace => {
            writer.enforce_backspace();
        },
        KeyInput::Control => {
            writer.write_byte(CARET);
        },
        KeyInput::Other => {},
    }
}

/// Takes a byte that the keyboard sent. Where the byte completes a key,
/// the key does to the screen what it asks for, and is returned.
pub fn handle_scancode(keyboard: &mut KeyboardDecoder, writer: &mut Writer, scancode: u8) -> (r:
    Option<KeyInput>)
    requires
        old(writer).wf(),
    ensures
        final(writer).wf(),
        final(writer)@ == (match r {
            Some(key) => key_effect(old(writer)@, key),
            None => old(writer)@,
        }),
{
    let event = match add_byte(keyboard, scancode) {
        Some(event) => event,
        None => {
            return None;
        },
    };
    match process_keyevent(keyboard, event) {
        Some(key) => {
            apply_key(writer, key);
            Some(key)
        },
        None => None,
    }
}

} // verus!
