use empire_porter::io_ops::{apply_import, format_empire_bundle, ConflictPolicy};
use empire_porter::parser::parse_empire_designs;

const SAMPLE: &str = "\"Miidarian Authority\"={\n\
\tkey=\"Miidarian Authority\"\n\
\tship_prefix=\"MAS\"\n\
\tspecies={\n\
\t\tclass=\"AVI\"\n\
\t\tportrait=\"avi1\"\n\
\t\tname=\"Miidarian\"\n\
\t\tplural=\"Miidarians\"\n\
\t\tadjective=\"Miidarian\"\n\
\t\tname_list=\"AVI1\"\n\
\t\ttrait=\"trait_intelligent\"\n\
\t}\n\
\tname=\"Miidarian Authority\"\n\
\tadjective=\"Miidarian\"\n\
\tauthority=\"auth_dictatorial\"\n\
\tgovernment=\"gov_martial_empire\"\n\
\torigin=\"origin_default\"\n\
\tplanet_name=\"Miidarian Prime\"\n\
\tplanet_class=\"pc_continental\"\n\
\tinitializer=\"random\"\n\
\tgraphical_culture=\"avian_01\"\n\
\tcity_graphical_culture=\"avian_01\"\n\
\tempire_flag={\n\
\t\ticon={\n\
\t\t\tcategory=\"pointy\"\n\
\t\t\tfile=\"flag_pointy_1.dds\"\n\
\t\t}\n\
\t\tbackground={\n\
\t\t\tcategory=\"backgrounds\"\n\
\t\t\tfile=\"00_solid.dds\"\n\
\t\t}\n\
\t\tcolors={\n\
\t\t\t\"dark_brown\"\n\
\t\t\t\"red\"\n\
\t\t\t\"null\"\n\
\t\t\t\"null\"\n\
\t\t}\n\
\t}\n\
\truler={\n\
\t\tname=\"Tavak\"\n\
\t\tgender=male\n\
\t\tportrait=\"avi1\"\n\
\t\ttexture=0\n\
\t\thair=0\n\
\t\tclothes=0\n\
\t}\n\
\tspawn_as_fallen=no\n\
\tignore_portrait_duplication=no\n\
\tspawn_enabled=yes\n\
\tethic=\"ethic_militarist\"\n\
\tethic=\"ethic_authoritarian\"\n\
\tcivics={\n\
\t\t\"civic_distinguished_admiralty\"\n\
\t\t\"civic_police_state\"\n\
\t}\n\
}\n\
\"Treasured Caretakers\"={\n\
\tkey=\"Treasured Caretakers\"\n\
\tship_prefix=\"TCA\"\n\
\tspecies={\n\
\t\tclass=\"MAM\"\n\
\t\tportrait=\"mam12\"\n\
\t\tname=\"Caretaker\"\n\
\t\tplural=\"Caretakers\"\n\
\t\tadjective=\"Caretaker\"\n\
\t\tname_list=\"MAM1\"\n\
\t\ttrait=\"trait_intelligent\"\n\
\t}\n\
\tname=\"Treasured Caretakers\"\n\
\tadjective=\"Caretaker\"\n\
\tauthority=\"auth_democratic\"\n\
\tgovernment=\"gov_representative_democracy\"\n\
\torigin=\"origin_remnants\"\n\
\tplanet_name=\"Caretaker Prime\"\n\
\tplanet_class=\"pc_continental\"\n\
\tinitializer=\"random\"\n\
\tgraphical_culture=\"mammalian_01\"\n\
\tcity_graphical_culture=\"mammalian_01\"\n\
\tempire_flag={\n\
\t\ticon={\n\
\t\t\tcategory=\"pointy\"\n\
\t\t\tfile=\"flag_pointy_1.dds\"\n\
\t\t}\n\
\t\tbackground={\n\
\t\t\tcategory=\"backgrounds\"\n\
\t\t\tfile=\"00_solid.dds\"\n\
\t\t}\n\
\t\tcolors={\n\
\t\t\t\"dark_brown\"\n\
\t\t\t\"red\"\n\
\t\t\t\"null\"\n\
\t\t\t\"null\"\n\
\t\t}\n\
\t}\n\
\truler={\n\
\t\tname=\"Ousha\"\n\
\t\tgender=male\n\
\t\tportrait=\"mam12\"\n\
\t\ttexture=0\n\
\t\thair=0\n\
\t\tclothes=0\n\
\t}\n\
\tspawn_as_fallen=no\n\
\tignore_portrait_duplication=no\n\
\tspawn_enabled=yes\n\
\tethic=\"ethic_fanatic_xenophile\"\n\
\tethic=\"ethic_pacifist\"\n\
\tcivics={\n\
\t\t\"civic_beacon_of_liberty\"\n\
\t\t\"civic_idealistic_foundation\"\n\
\t}\n\
}\n\
\"Glimmering Tide of Vosh\"={\n\
\tkey=\"Glimmering Tide of Vosh\"\n\
\tship_prefix=\"GTV\"\n\
\tspecies={\n\
\t\tclass=\"MOL\"\n\
\t\tportrait=\"mol7\"\n\
\t\tname=\"Voshari\"\n\
\t\tplural=\"Vosharis\"\n\
\t\tadjective=\"Voshari\"\n\
\t\tname_list=\"MOL1\"\n\
\t\ttrait=\"trait_intelligent\"\n\
\t}\n\
\tname=\"Glimmering Tide of Vosh\"\n\
\tadjective=\"Voshari\"\n\
\tauthority=\"auth_oligarchic\"\n\
\tgovernment=\"gov_merchant_guilds\"\n\
\torigin=\"origin_void_dwellers\"\n\
\tplanet_name=\"Voshari Prime\"\n\
\tplanet_class=\"pc_continental\"\n\
\tinitializer=\"random\"\n\
\tgraphical_culture=\"molluscoid_01\"\n\
\tcity_graphical_culture=\"molluscoid_01\"\n\
\tempire_flag={\n\
\t\ticon={\n\
\t\t\tcategory=\"pointy\"\n\
\t\t\tfile=\"flag_pointy_1.dds\"\n\
\t\t}\n\
\t\tbackground={\n\
\t\t\tcategory=\"backgrounds\"\n\
\t\t\tfile=\"00_solid.dds\"\n\
\t\t}\n\
\t\tcolors={\n\
\t\t\t\"dark_brown\"\n\
\t\t\t\"red\"\n\
\t\t\t\"null\"\n\
\t\t\t\"null\"\n\
\t\t}\n\
\t}\n\
\truler={\n\
\t\tname=\"Pell Varr\"\n\
\t\tgender=male\n\
\t\tportrait=\"mol7\"\n\
\t\ttexture=0\n\
\t\thair=0\n\
\t\tclothes=0\n\
\t}\n\
\tspawn_as_fallen=no\n\
\tignore_portrait_duplication=no\n\
\tspawn_enabled=yes\n\
\tethic=\"ethic_materialist\"\n\
\tethic=\"ethic_xenophile\"\n\
\tcivics={\n\
\t\t\"civic_merchant_guilds\"\n\
\t\t\"civic_technocracy\"\n\
\t}\n\
}\n\
\"Animated Whispers\"={\n\
\tkey=\"Animated Whispers\"\n\
\tship_prefix=\"AWS\"\n\
\tspecies={\n\
\t\tclass=\"MACHINE\"\n\
\t\tportrait=\"mach3\"\n\
\t\tname=\"Whisper\"\n\
\t\tplural=\"Whispers\"\n\
\t\tadjective=\"Whisper\"\n\
\t\tname_list=\"MACHINE1\"\n\
\t\ttrait=\"trait_intelligent\"\n\
\t}\n\
\tname=\"Animated Whispers\"\n\
\tadjective=\"Whisper\"\n\
\tauthority=\"auth_machine_intelligence\"\n\
\tgovernment=\"gov_machine_industrial\"\n\
\torigin=\"origin_default\"\n\
\tplanet_name=\"Whisper Prime\"\n\
\tplanet_class=\"pc_continental\"\n\
\tinitializer=\"random\"\n\
\tgraphical_culture=\"machine_01\"\n\
\tcity_graphical_culture=\"machine_01\"\n\
\tempire_flag={\n\
\t\ticon={\n\
\t\t\tcategory=\"pointy\"\n\
\t\t\tfile=\"flag_pointy_1.dds\"\n\
\t\t}\n\
\t\tbackground={\n\
\t\t\tcategory=\"backgrounds\"\n\
\t\t\tfile=\"00_solid.dds\"\n\
\t\t}\n\
\t\tcolors={\n\
\t\t\t\"dark_brown\"\n\
\t\t\t\"red\"\n\
\t\t\t\"null\"\n\
\t\t\t\"null\"\n\
\t\t}\n\
\t}\n\
\truler={\n\
\t\tname=\"Unit 0\"\n\
\t\tgender=male\n\
\t\tportrait=\"mach3\"\n\
\t\ttexture=0\n\
\t\thair=0\n\
\t\tclothes=0\n\
\t}\n\
\tspawn_as_fallen=no\n\
\tignore_portrait_duplication=no\n\
\tspawn_enabled=yes\n\
\tethic=\"ethic_gestalt_consciousness\"\n\
\tcivics={\n\
\t\t\"civic_machine_static_research\"\n\
\t\t\"civic_machine_maintenance_protocols\"\n\
\t}\n\
}\n\
\"Sovereign Reef of Anthar\"={\n\
\tkey=\"Sovereign Reef of Anthar\"\n\
\tship_prefix=\"SRA\"\n\
\tspecies={\n\
\t\tclass=\"AQUATIC\"\n\
\t\tportrait=\"aqu4\"\n\
\t\tname=\"Antharan\"\n\
\t\tplural=\"Antharans\"\n\
\t\tadjective=\"Antharan\"\n\
\t\tname_list=\"AQUATIC1\"\n\
\t\ttrait=\"trait_intelligent\"\n\
\t}\n\
\tname=\"Sovereign Reef of Anthar\"\n\
\tadjective=\"Antharan\"\n\
\tauthority=\"auth_imperial\"\n\
\tgovernment=\"gov_star_empire\"\n\
\torigin=\"origin_ocean_paradise\"\n\
\tplanet_name=\"Antharan Prime\"\n\
\tplanet_class=\"pc_continental\"\n\
\tinitializer=\"random\"\n\
\tgraphical_culture=\"aquatic_01\"\n\
\tcity_graphical_culture=\"aquatic_01\"\n\
\tempire_flag={\n\
\t\ticon={\n\
\t\t\tcategory=\"pointy\"\n\
\t\t\tfile=\"flag_pointy_1.dds\"\n\
\t\t}\n\
\t\tbackground={\n\
\t\t\tcategory=\"backgrounds\"\n\
\t\t\tfile=\"00_solid.dds\"\n\
\t\t}\n\
\t\tcolors={\n\
\t\t\t\"dark_brown\"\n\
\t\t\t\"red\"\n\
\t\t\t\"null\"\n\
\t\t\t\"null\"\n\
\t\t}\n\
\t}\n\
\truler={\n\
\t\tname=\"Sho'Mar\"\n\
\t\tgender=male\n\
\t\tportrait=\"aqu4\"\n\
\t\ttexture=0\n\
\t\thair=0\n\
\t\tclothes=0\n\
\t}\n\
\tspawn_as_fallen=no\n\
\tignore_portrait_duplication=no\n\
\tspawn_enabled=yes\n\
\tethic=\"ethic_spiritualist\"\n\
\tethic=\"ethic_authoritarian\"\n\
\tcivics={\n\
\t\t\"civic_imperial_cult\"\n\
\t\t\"civic_anglers\"\n\
\t}\n\
}\n\
\"Fellowship of Quiet Roots\"={\n\
\tkey=\"Fellowship of Quiet Roots\"\n\
\tship_prefix=\"FQR\"\n\
\tspecies={\n\
\t\tclass=\"PLANT\"\n\
\t\tportrait=\"pla2\"\n\
\t\tname=\"Quietroot\"\n\
\t\tplural=\"Quietroots\"\n\
\t\tadjective=\"Quietroot\"\n\
\t\tname_list=\"PLANT1\"\n\
\t\ttrait=\"trait_intelligent\"\n\
\t}\n\
\tname=\"Fellowship of Quiet Roots\"\n\
\tadjective=\"Quietroot\"\n\
\tauthority=\"auth_democratic\"\n\
\tgovernment=\"gov_moral_democracy\"\n\
\torigin=\"origin_shattered_ring\"\n\
\tplanet_name=\"Quietroot Prime\"\n\
\tplanet_class=\"pc_continental\"\n\
\tinitializer=\"random\"\n\
\tgraphical_culture=\"plantoid_01\"\n\
\tcity_graphical_culture=\"plantoid_01\"\n\
\tempire_flag={\n\
\t\ticon={\n\
\t\t\tcategory=\"pointy\"\n\
\t\t\tfile=\"flag_pointy_1.dds\"\n\
\t\t}\n\
\t\tbackground={\n\
\t\t\tcategory=\"backgrounds\"\n\
\t\t\tfile=\"00_solid.dds\"\n\
\t\t}\n\
\t\tcolors={\n\
\t\t\t\"dark_brown\"\n\
\t\t\t\"red\"\n\
\t\t\t\"null\"\n\
\t\t\t\"null\"\n\
\t\t}\n\
\t}\n\
\truler={\n\
\t\tname=\"Branchwise Ell\"\n\
\t\tgender=male\n\
\t\tportrait=\"pla2\"\n\
\t\ttexture=0\n\
\t\thair=0\n\
\t\tclothes=0\n\
\t}\n\
\tspawn_as_fallen=no\n\
\tignore_portrait_duplication=no\n\
\tspawn_enabled=yes\n\
\tethic=\"ethic_egalitarian\"\n\
\tethic=\"ethic_pacifist\"\n\
\tcivics={\n\
\t\t\"civic_agrarian_idyll\"\n\
\t\t\"civic_environmentalist\"\n\
\t}\n\
}\n\
\"Iron Choir of Dessa\"={\n\
\tkey=\"Iron Choir of Dessa\"\n\
\tship_prefix=\"ICD\"\n\
\tspecies={\n\
\t\tclass=\"REP\"\n\
\t\tportrait=\"rep9\"\n\
\t\tname=\"Dessan\"\n\
\t\tplural=\"Dessans\"\n\
\t\tadjective=\"Dessan\"\n\
\t\tname_list=\"REP1\"\n\
\t\ttrait=\"trait_intelligent\"\n\
\t}\n\
\tname=\"Iron Choir of Dessa\"\n\
\tadjective=\"Dessan\"\n\
\tauthority=\"auth_oligarchic\"\n\
\tgovernment=\"gov_military_junta\"\n\
\torigin=\"origin_mechanists\"\n\
\tplanet_name=\"Dessan Prime\"\n\
\tplanet_class=\"pc_continental\"\n\
\tinitializer=\"random\"\n\
\tgraphical_culture=\"reptilian_01\"\n\
\tcity_graphical_culture=\"reptilian_01\"\n\
\tempire_flag={\n\
\t\ticon={\n\
\t\t\tcategory=\"pointy\"\n\
\t\t\tfile=\"flag_pointy_1.dds\"\n\
\t\t}\n\
\t\tbackground={\n\
\t\t\tcategory=\"backgrounds\"\n\
\t\t\tfile=\"00_solid.dds\"\n\
\t\t}\n\
\t\tcolors={\n\
\t\t\t\"dark_brown\"\n\
\t\t\t\"red\"\n\
\t\t\t\"null\"\n\
\t\t\t\"null\"\n\
\t\t}\n\
\t}\n\
\truler={\n\
\t\tname=\"Hagg Dessa\"\n\
\t\tgender=male\n\
\t\tportrait=\"rep9\"\n\
\t\ttexture=0\n\
\t\thair=0\n\
\t\tclothes=0\n\
\t}\n\
\tspawn_as_fallen=no\n\
\tignore_portrait_duplication=no\n\
\tspawn_enabled=yes\n\
\tethic=\"ethic_militarist\"\n\
\tethic=\"ethic_materialist\"\n\
\tcivics={\n\
\t\t\"civic_citizen_service\"\n\
\t\t\"civic_mining_guilds\"\n\
\t}\n\
}\n\
\"Edacious Maginon Masticators\"={\n\
\tkey=\"Edacious Maginon Masticators\"\n\
\tship_prefix=\"EMM\"\n\
\tspecies={\n\
\t\tclass=\"ART\"\n\
\t\tportrait=\"art5\"\n\
\t\tname=\"Maginon\"\n\
\t\tplural=\"Maginons\"\n\
\t\tadjective=\"Maginon\"\n\
\t\tname_list=\"ART1\"\n\
\t\ttrait=\"trait_intelligent\"\n\
\t}\n\
\tname=\"Edacious Maginon Masticators\"\n\
\tadjective=\"Maginon\"\n\
\tauthority=\"auth_dictatorial\"\n\
\tgovernment=\"gov_despotic_empire\"\n\
\torigin=\"origin_necrophage\"\n\
\tplanet_name=\"Maginon Prime\"\n\
\tplanet_class=\"pc_continental\"\n\
\tinitializer=\"random\"\n\
\tgraphical_culture=\"arthropoid_01\"\n\
\tcity_graphical_culture=\"arthropoid_01\"\n\
\tempire_flag={\n\
\t\ticon={\n\
\t\t\tcategory=\"pointy\"\n\
\t\t\tfile=\"flag_pointy_1.dds\"\n\
\t\t}\n\
\t\tbackground={\n\
\t\t\tcategory=\"backgrounds\"\n\
\t\t\tfile=\"00_solid.dds\"\n\
\t\t}\n\
\t\tcolors={\n\
\t\t\t\"dark_brown\"\n\
\t\t\t\"red\"\n\
\t\t\t\"null\"\n\
\t\t\t\"null\"\n\
\t\t}\n\
\t}\n\
\truler={\n\
\t\tname=\"Gnash Vel\"\n\
\t\tgender=male\n\
\t\tportrait=\"art5\"\n\
\t\ttexture=0\n\
\t\thair=0\n\
\t\tclothes=0\n\
\t}\n\
\tspawn_as_fallen=no\n\
\tignore_portrait_duplication=no\n\
\tspawn_enabled=yes\n\
\tethic=\"ethic_fanatic_xenophobe\"\n\
\tethic=\"ethic_authoritarian\"\n\
\tcivics={\n\
\t\t\"civic_slaver_guilds\"\n\
\t\t\"civic_police_state\"\n\
\t}\n\
}\n\
";

#[test]
fn skip_policy_leaves_duplicate_out() {
    let target = parse_empire_designs(SAMPLE).expect("target should parse");
    let incoming = vec![target[0].clone()];

    let (_output, report) = apply_import(SAMPLE, &target, &incoming, ConflictPolicy::Skip);

    assert_eq!(report.skipped, 1);
    assert_eq!(report.imported, 0);
    assert_eq!(report.replaced, 0);
}

#[test]
fn append_policy_adds_duplicate() {
    let target = parse_empire_designs(SAMPLE).expect("target should parse");
    let incoming = vec![target[0].clone()];

    let (output, report) = apply_import(SAMPLE, &target, &incoming, ConflictPolicy::Append);

    assert_eq!(report.imported, 1);
    assert!(output.len() > SAMPLE.len());
}

#[test]
fn import_output_is_canonical_and_parseable() {
    let crlf_sample = SAMPLE.replace('\n', "\r\n");
    let target = parse_empire_designs(&crlf_sample).expect("target should parse");
    let incoming = vec![target[0].clone()];

    let (output, report) =
        apply_import(&crlf_sample, &target, &incoming, ConflictPolicy::Append);

    assert_eq!(report.imported, 1);
    assert!(output.contains("}\r\n\r\n\""));
    assert!(!output.replace("\r\n", "").contains('\n'));
    parse_empire_designs(&output).expect("canonical output should parse");
}

#[test]
fn formatted_bundle_has_clean_block_boundaries() {
    let target = parse_empire_designs(SAMPLE).expect("target should parse");
    let output = format_empire_bundle(&target[..2], "\r\n");

    assert!(output.contains("}\r\n\r\n\"Treasured Caretakers\"="));
    assert!(output.ends_with("\r\n"));
    parse_empire_designs(&output).expect("formatted bundle should parse");
}

#[test]
fn replace_policy_replaces_duplicate() {
    let target = parse_empire_designs(SAMPLE).expect("target should parse");
    let mut incoming_empire = target[0].clone();
    incoming_empire.raw_text = incoming_empire
        .raw_text
        .replace("auth_dictatorial", "auth_test_replaced");

    let (output, report) =
        apply_import(SAMPLE, &target, &[incoming_empire], ConflictPolicy::Replace);

    assert_eq!(report.replaced, 1);
    assert!(output.contains("auth_test_replaced"));
}
