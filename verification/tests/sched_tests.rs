use testos::pic::{
    eoi_chips, irq_chip_and_line, isr_marks_spurious, spurious_check_chip, updated_mask,
    IRQ_INTERRUPT_OFFSET, IRQS_PER_PIC,
};
use testos::sched::Scheduler;

#[test]
fn irqs_split_over_the_two_controllers() {
    assert_eq!(irq_chip_and_line(0), (0, 0));
    assert_eq!(irq_chip_and_line(7), (0, 7));
    assert_eq!(irq_chip_and_line(8), (1, 0));
    assert_eq!(irq_chip_and_line(15), (1, 7));
    assert_eq!(IRQ_INTERRUPT_OFFSET + 2 * IRQS_PER_PIC - 1, 47);
}

#[test]
fn masking_changes_exactly_one_bit() {
    assert_eq!(updated_mask(0b0000_0000, 3, true), 0b0000_1000);
    assert_eq!(updated_mask(0b1111_1111, 3, false), 0b1111_0111);
    assert_eq!(updated_mask(0b1010_0000, 7, true), 0b1010_0000);
    assert_eq!(updated_mask(0b0101_0101, 0, false), 0b0101_0100);
}

#[test]
fn only_irq_7_and_15_may_be_spurious() {
    assert_eq!(spurious_check_chip(7), Some(0));
    assert_eq!(spurious_check_chip(15), Some(1));
    for irq in (0..16).filter(|&i| i != 7 && i != 15) {
        assert_eq!(spurious_check_chip(irq), None);
    }
    assert!(isr_marks_spurious(0x80));
    assert!(isr_marks_spurious(0xff));
    assert!(!isr_marks_spurious(0x7f));
}

#[test]
fn end_of_interrupt_goes_to_the_right_controllers() {
    assert_eq!(eoi_chips(1, false), (false, true));
    assert_eq!(eoi_chips(12, false), (true, true));
    assert_eq!(eoi_chips(7, true), (false, false));
    assert_eq!(eoi_chips(15, true), (false, true));
}

#[test]
fn yield_with_nothing_ready_keeps_the_current_task() {
    let mut s = Scheduler::new();
    assert_eq!(s.yield_current(0x1000), 0x1000);
    assert_eq!(s.pop_next_ready_task(0x9000), 0x9000);
}

#[test]
fn yield_is_round_robin() {
    let mut s = Scheduler::new();
    s.add_task_to_ready_list(0x2000);
    s.add_task_to_ready_list(0x3000);
    // 0x1000 runs, yields: 0x2000 runs next, then 0x3000, then 0x1000.
    assert_eq!(s.yield_current(0x1000), 0x2000);
    assert_eq!(s.yield_current(0x2000), 0x3000);
    assert_eq!(s.yield_current(0x3000), 0x1000);
}

#[test]
fn quitting_hands_out_the_next_ready_task_or_idle() {
    let mut s = Scheduler::new();
    s.add_task_to_ready_list(0x2000);
    assert_eq!(s.pop_next_ready_task(0x9000), 0x2000);
    assert_eq!(s.pop_next_ready_task(0x9000), 0x9000);
}
