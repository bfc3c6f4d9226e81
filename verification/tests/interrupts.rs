use blog_os::interrupts::{
    init_idt, InterruptHandler, DOUBLE_FAULT_IST_INDEX, KEYBOARD_INTERRUPT_ID, PIC_1_OFFSET,
    PIC_2_OFFSET, TIMER_INTERRUPT_ID,
};

#[test]
fn the_interrupt_controllers_follow_the_exceptions() {
    assert_eq!(PIC_1_OFFSET, 32);
    assert_eq!(PIC_2_OFFSET, 40);
    assert_eq!(TIMER_INTERRUPT_ID, 32);
    assert_eq!(KEYBOARD_INTERRUPT_ID, 33);
}

#[test]
fn the_table_holds_the_five_handlers() {
    let table = init_idt();
    assert_eq!(table.handler(3), Some(InterruptHandler::Breakpoint));
    assert_eq!(table.handler(8), Some(InterruptHandler::DoubleFault));
    assert_eq!(table.handler(14), Some(InterruptHandler::PageFault));
    assert_eq!(table.handler(32), Some(InterruptHandler::Timer));
    assert_eq!(table.handler(33), Some(InterruptHandler::Keyboard));
    assert_eq!(table.double_fault_stack_index(), DOUBLE_FAULT_IST_INDEX);
    let mut installed = 0;
    for vector in 0..=255u8 {
        if table.handler(vector).is_some() {
            installed += 1;
        }
    }
    assert_eq!(installed, 5);
    assert_eq!(table.handler(0), None);
    assert_eq!(table.handler(34), None);
    assert_eq!(table.handler(255), None);
}
