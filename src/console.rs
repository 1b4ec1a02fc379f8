//! The system console: the traits a console device offers, the null
//! console that stands in until a device is registered, and the slot that
//! holds the current console.
use vstd::prelude::*;
use crate::synchronisation::{Mutex, NullLock};

verus! {

/// Output to a console.
pub trait Write {
    /// Writes one character.
    fn write_char(&mut self, c: char);

    /// Writes each character of `s`.
    fn write_str(&mut self, s: &str);

    /// Blocks until the last buffered character is sent.
    fn flush(&mut self);
}

/// Input from a console.
pub trait Read {
    /// Reads one character; the default reads a space.
    fn read_char(&mut self) -> char {
        ' '
    }

    /// Drops whatever input is buffered.
    fn clear_rx(&mut self);
}

/// Counters kept by a console, for debugging.
pub trait Statistics {
    /// Characters written so far; the default counts none.
    fn chars_written(&self) -> usize {
        0
    }

    /// Characters read so far; the default counts none.
    fn chars_read(&self) -> usize {
        0
    }
}

/// A full console device.
pub trait All: Write + Read + Statistics {

}

/// The character a console delivers for a received byte: a carriage return
/// becomes a newline, any other byte stands for itself.
pub fn convert_received(byte: u8) -> (r: char)
    ensures
        r == if byte == 13 {
            '\n'
        } else {
            byte as char
        },
{
    if byte == 13 {
        '\n'
    } else {
        byte as char
    }
}

/// A console that discards output and has no input.
pub struct NullConsole {}

impl Write for NullConsole {
    fn write_char(&mut self, c: char) {
    }

    fn write_str(&mut self, s: &str) {
    }

    fn flush(&mut self) {
    }
}

impl Read for NullConsole {
    fn clear_rx(&mut self) {
    }
}

impl Statistics for NullConsole {

}

impl All for NullConsole {

}

/// The current console: the null console, or a registered device.
pub enum Console<C> {
    Null(NullConsole),
    Registered(C),
}

impl<C: All> Write for Console<C> {
    fn write_char(&mut self, c: char) {
        match self {
            Console::Null(n) => n.write_char(c),
            Console::Registered(d) => d.write_char(c),
        }
    }

    fn write_str(&mut self, s: &str) {
        match self {
            Console::Null(n) => n.write_str(s),
            Console::Registered(d) => d.write_str(s),
        }
    }

    fn flush(&mut self) {
        match self {
            Console::Null(n) => n.flush(),
            Console::Registered(d) => d.flush(),
        }
    }
}

impl<C: All> Read for Console<C> {
    fn read_char(&mut self) -> char {
        match self {
            Console::Null(n) => n.read_char(),
            Console::Registered(d) => d.read_char(),
        }
    }

    fn clear_rx(&mut self) {
        match self {
            Console::Null(n) => n.clear_rx(),
            Console::Registered(d) => d.clear_rx(),
        }
    }
}

impl<C: All> Statistics for Console<C> {
    fn chars_written(&self) -> usize {
        match self {
            Console::Null(n) => n.chars_written(),
            Console::Registered(d) => d.chars_written(),
        }
    }

    fn chars_read(&self) -> usize {
        match self {
            Console::Null(n) => n.chars_read(),
            Console::Registered(d) => d.chars_read(),
        }
    }
}

impl<C: All> All for Console<C> {

}

/// Holds the current console: the null console until a device registers.
pub struct ConsoleSlot<C> {
    current: NullLock<Console<C>>,
}

impl<C> ConsoleSlot<C> {
    /// The current console.
    pub closed spec fn current(&self) -> Console<C> {
        self.current.inner()
    }

    /// A slot holding the null console.
    pub fn new() -> (r: Self)
        ensures
            r.current() is Null,
    {
        ConsoleSlot { current: NullLock::new(Console::Null(NullConsole {  })) }
    }

    /// Makes `new_console` the current console.
    pub fn register_console(&mut self, new_console: C)
        ensures
            final(self).current() == Console::<C>::Registered(new_console),
    {
        let con = self.current.lock();
        *con = Console::Registered(new_console);
    }

    /// The current console.
    pub fn console(&mut self) -> (r: &mut Console<C>)
        ensures
            *r == old(self).current(),
            final(self).current() == *final(r),
    {
        self.current.lock()
    }
}

} // verus!
