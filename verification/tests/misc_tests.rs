use lib::cpu::{build_satp, SatpMode, TrapFrame};
use lib::ecall::{do_ecall, Ecall};
use lib::plic::{enable, has_pending, next, priority_register, set_priority, set_threshold};
use lib::trap::{next_timer, trap_action, TrapAction, TIMER_INTERVAL};
use lib::uart::Uart;

#[test]
fn satp_modes() {
    assert_eq!(SatpMode::Off.value(), 0);
    assert_eq!(SatpMode::Sv39.value(), 8);
    assert_eq!(SatpMode::Sv48.value(), 9);
}

#[test]
fn build_satp_fields() {
    assert_eq!(build_satp(SatpMode::Sv39, 1, 0x8000_1000), 0x8000_1000_0008_0001);
    assert_eq!(build_satp(SatpMode::Off, 0, 0), 0);
    // the asid keeps 12 bits, the page number 40
    assert_eq!(build_satp(SatpMode::Sv48, 0x1fff, 0xffff_ffff_ffff_ffff), 0x90ff_f0ff_ffff_ffff);
}

#[test]
fn trap_frame_zero() {
    let f = TrapFrame::zero();
    assert!(f.regs.iter().all(|r| *r == 0));
    assert!(f.fregs.iter().all(|r| *r == 0));
    assert_eq!((f.satp, f.trap_stack, f.hartid), (0, 0, 0));
}

#[test]
fn ecall_decoding() {
    let mut f = TrapFrame::zero();
    assert_eq!(do_ecall(0x100, &f), (0x104, Ecall::Exit));
    f.regs[17] = 1;
    assert_eq!(do_ecall(0x100, &f), (0x104, Ecall::Test));
    f.regs[17] = 42;
    assert_eq!(do_ecall(0x200, &f), (0x204, Ecall::Unknown(42)));
}

#[test]
fn trap_actions() {
    let int = 1u64 << 63;
    assert_eq!(trap_action(0x100, int | 3), (0x100, TrapAction::MachineSoftwareInterrupt));
    assert_eq!(trap_action(0x100, int | 7), (0x100, TrapAction::MachineTimerInterrupt));
    assert_eq!(trap_action(0x100, int | 11), (0x100, TrapAction::MachineExternalInterrupt));
    assert_eq!(trap_action(0x100, int | 5), (0x100, TrapAction::UnhandledAsync));
    assert_eq!(trap_action(0x100, 2), (0x100, TrapAction::IllegalInstruction));
    assert_eq!(trap_action(0x100, 8), (0x104, TrapAction::UserEcall));
    assert_eq!(trap_action(0x100, 9), (0x104, TrapAction::SupervisorEcall));
    assert_eq!(trap_action(0x100, 11), (0x100, TrapAction::MachineEcall));
    assert_eq!(trap_action(0x100, 12), (0x104, TrapAction::InstructionPageFault));
    assert_eq!(trap_action(0x100, 13), (0x104, TrapAction::LoadPageFault));
    assert_eq!(trap_action(0x100, 15), (0x104, TrapAction::StorePageFault));
    assert_eq!(trap_action(0x100, 14), (0x100, TrapAction::UnhandledSync));
    // only the low twelve bits are the code
    assert_eq!(trap_action(0x100, 0x1008), (0x104, TrapAction::UserEcall));
}

#[test]
fn plic_register_values() {
    assert_eq!(enable(0, 10), 1 << 10);
    assert_eq!(enable(0b11, 2), 0b111);
    assert!(has_pending(1, 0b10));
    assert!(!has_pending(1, 0b01));
    assert!(has_pending(10, 20));
    assert_eq!(set_priority(1), 1);
    assert_eq!(set_priority(0xff), 7);
    assert_eq!(set_threshold(9), 1);
    assert_eq!(next(0), None);
    assert_eq!(next(10), Some(10));
    assert_eq!(priority_register(10), 0x0c00_0028);
}

#[test]
fn uart_setup() {
    let u = Uart::new(0x1000_0000);
    assert_eq!(u.base_address(), 0x1000_0000);
    assert_eq!(u.init(), vec![(3, 3), (2, 1), (1, 1), (3, 0x83), (0, 0x50), (1, 2), (3, 3)]);
    assert!(Uart::data_ready(0x61));
    assert!(!Uart::data_ready(0x60));
}

#[test]
fn timer_is_armed_one_interval_ahead() {
    assert_eq!(TIMER_INTERVAL, 10_000_000);
    assert_eq!(next_timer(0), 10_000_000);
    assert_eq!(next_timer(123_456), 10_123_456);
}
