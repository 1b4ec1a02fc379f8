use sentinel_boot::bsp::{qemu, unmatched, visionfive};
use sentinel_boot::console::{convert_received, All, Console, ConsoleSlot, NullConsole, Read, Statistics, Write};
use sentinel_boot::driver::{DeviceDriver, DeviceDriverDescriptor, DriverManager, DriverManagerInner, NUM_DRIVERS};
use sentinel_boot::synchronisation::{Mutex, NullLock};

#[test]
fn board_names() {
    assert_eq!(qemu::board_name(), "QEMU");
    assert_eq!(unmatched::board_name(), "HiFive Unmatched");
    assert_eq!(visionfive::board_name(), "VisionFive");
}

#[test]
fn kernel_image_regions() {
    assert_eq!(qemu::kernel_image_len(), 0x84A0_0000 - 0x8020_0000);
    assert_eq!(unmatched::kernel_image_len(), 0x43a0_0000 - 0x4020_0000);
    assert_eq!(visionfive::kernel_image_len(), 0x44A0_0000 - 0x4020_0000);
}

#[test]
fn null_lock_grants_access() {
    let mut l = NullLock::new(5u32);
    *l.lock() += 1;
    assert_eq!(*l.get(), 6);
    assert_eq!(l.into_inner(), 6);
}

struct Uart {
    name: &'static str,
}

impl DeviceDriver for Uart {
    fn name(&self) -> &'static str {
        self.name
    }
}

#[test]
fn driver_manager_registers_in_order() {
    let _empty: DriverManagerInner<Uart, u8> = DriverManagerInner::new();
    let mut m: DriverManager<Uart, u8> = DriverManager::new();
    assert_eq!(m.len(), 0);
    m.register_driver(DeviceDriverDescriptor::new(Uart { name: "a" }, Some(1)));
    m.register_driver(DeviceDriverDescriptor::new(Uart { name: "b" }, None));
    assert_eq!(m.len(), 2);
    assert_eq!(m.descriptor(0).device_driver.name(), "a");
    assert_eq!(m.descriptor(0).post_init_callback, Some(1));
    assert_eq!(m.descriptor(1).device_driver.name(), "b");
    assert_eq!(m.descriptor(1).post_init_callback, None);
    assert_eq!(m.descriptor(1).device_driver.init(), Ok(()));
    assert!(!m.is_full());
    for i in 2..NUM_DRIVERS {
        assert!(!m.is_full());
        m.register_driver(DeviceDriverDescriptor::new(Uart { name: "c" }, Some(i as u8)));
    }
    assert!(m.is_full());
}

#[derive(Default)]
struct Recorder {
    out: String,
    read: usize,
}

impl Write for Recorder {
    fn write_char(&mut self, c: char) {
        self.out.push(c);
    }
    fn write_str(&mut self, s: &str) {
        self.out.push_str(s);
    }
    fn flush(&mut self) {}
}

impl Read for Recorder {
    fn read_char(&mut self) -> char {
        self.read += 1;
        'x'
    }
    fn clear_rx(&mut self) {}
}

impl Statistics for Recorder {
    fn chars_written(&self) -> usize {
        self.out.chars().count()
    }
    fn chars_read(&self) -> usize {
        self.read
    }
}

impl All for Recorder {}

#[test]
fn console_slot_starts_with_null_console() {
    let mut slot: ConsoleSlot<Recorder> = ConsoleSlot::new();
    let con = slot.console();
    assert!(matches!(con, Console::Null(_)));
    con.write_str("ignored");
    con.write_char('x');
    con.flush();
    con.clear_rx();
    assert_eq!(con.read_char(), ' ');
    assert_eq!(con.chars_written(), 0);
    assert_eq!(con.chars_read(), 0);
}

#[test]
fn registered_console_receives_output() {
    let mut slot: ConsoleSlot<Recorder> = ConsoleSlot::new();
    slot.register_console(Recorder::default());
    let con = slot.console();
    con.write_str("boot");
    con.write_char('!');
    assert_eq!(con.read_char(), 'x');
    assert_eq!(con.chars_written(), 5);
    assert_eq!(con.chars_read(), 1);
    match slot.console() {
        Console::Registered(r) => assert_eq!(r.out, "boot!"),
        Console::Null(_) => panic!("console not registered"),
    }
}

#[test]
fn null_console_is_silent() {
    let mut n = NullConsole {};
    n.write_str("x");
    assert_eq!(n.chars_written(), 0);
    assert_eq!(n.read_char(), ' ');
}

#[test]
fn received_bytes_convert_carriage_return() {
    assert_eq!(convert_received(b'\r'), '\n');
    assert_eq!(convert_received(b'a'), 'a');
    assert_eq!(convert_received(b'\n'), '\n');
}
